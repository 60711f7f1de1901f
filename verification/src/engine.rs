//! Keeping the tunnel up, and pumping packets across it.
//!
//! Two facts live here that the layers below do not know: that a tunnel can die and be replaced, and
//! that the two directions must not wait for each other.
//!
//! Replacement is cheap because of where the routes point: at the adapter, not at the connection. A
//! reconnect opens a new stream and swaps the two halves of the pump; the adapter, its address and
//! the whole route set stay as they were.
//!
//! Whoever runs the core performs what is decided here and hands back what happened: [`Engine`] goes
//! from one tunnel to the next, and [`Pump`] from the start of one tunnel to its end. Durations are
//! in milliseconds.

use vstd::prelude::*;
use vstd::string::StringExecFns;
use crate::address::written::{address_written, parse};
use crate::address::{lemma_number_bound, lemma_pow256, number, number_of, IpAddr};
use crate::dns::lease::{
    law_traffic_moves_one_expiry_out, since, tidy, touched, LeaseState,
};
use crate::dns::server::Resolver;
use crate::queue::signals::version;
use crate::state::{counted_packet, Core, CoreState, Ipv6Support, PathReading, Phase};
use crate::text::joined;
use crate::transport::carrier::{Carrier, Plan};
use crate::transport::connect_ip::{connect_text, ConnectError, LinkStats, Stages};
use crate::warp::api::ENDPOINT_H3_V4;
use crate::warp::enrolment::{about_the_device, refusal_is_about_the_device};
use crate::warp::identity::Identity;

pub mod laws;

verus! {

/// How long to wait before each retry, by the number of failures already seen in a row.
///
/// The first entry is short on purpose: a tunnel that was up a moment ago has usually lost something
/// momentary. The last entry repeats for as long as it takes.
pub const BACKOFF: [u64; 5] = [1000, 2000, 4000, 8000, 15000];

/// How often the endpoint is asked whether it is still there, and how long an answer is waited for.
///
/// Together these two set the worst case for noticing a tunnel that has stopped working without
/// saying so. Reconnecting costs a fraction of a second and touches neither the adapter nor a single
/// route, so a false alarm on a congested line is almost free.
pub const PING_EVERY: u64 = 5000;

pub const PING_TIMEOUT: u64 = 5000;

/// How long the line is given to settle before the endpoint is asked about it. Interface changes
/// arrive in bursts, and a question put in the middle of one is answered by the burst rather than by
/// the tunnel.
pub const SETTLING: u64 = 300;

/// How long one attempt to open a tunnel may take before it is abandoned for a fresh one.
pub const CONNECT_TIMEOUT: u64 = 20_000;

/// What a tunnel killed on volume looks like: it opened, carried a little, and stopped answering.
///
/// One of these is not evidence: a link can go away at any moment. A run of them is: a limit
/// enforced on volume produces the same short life every time, which nothing else does.
pub const CUT_SHORT_BYTES: u64 = 256 * 1024;

pub const CUT_SHORT_WITHIN: u64 = 60_000;

pub const CUT_SHORT_RUN: usize = 3;

/// How many packets are taken from the queue and written as one run: large enough that a busy tunnel
/// stops paying a system call per packet, small enough that the first packet of a run never waits on
/// the last.
pub const BATCH: usize = 32;

/// How often a tunnel over HTTP/2 looks at whether HTTP/3 may be tried again.
pub const UPGRADE_EVERY: u64 = 30_000;

/// Whether a tunnel's life looks like a limit being enforced rather than a link going away.
pub fn cut_short_life(lived: u64, carried: u64) -> (cut: bool)
    ensures
        cut == (lived < CUT_SHORT_WITHIN && carried < CUT_SHORT_BYTES),
{
    lived < CUT_SHORT_WITHIN && carried < CUT_SHORT_BYTES
}

/// A count one higher, or the highest there is.
pub open spec fn one_more(count: usize) -> usize {
    if count < usize::MAX {
        (count + 1) as usize
    } else {
        count
    }
}

fn next_count(count: usize) -> (next: usize)
    ensures
        next == one_more(count),
{
    if count < usize::MAX {
        count + 1
    } else {
        count
    }
}

/// What the engine remembers from one tunnel to the next.
#[derive(Debug, Clone, Copy, PartialEq, Eq, Structural)]
pub struct Engine {
    /// How many times in a row there was no tunnel to carry on with: what the wait goes by.
    pub failures: usize,
    /// How many attempts have failed since a tunnel last came up.
    pub attempts: usize,
    /// How many tunnels in a row died having carried almost nothing.
    pub cut_short: usize,
}

/// What ended the wait before an attempt.
#[derive(Debug, Clone, Copy, PartialEq, Eq, Structural)]
pub enum Woken {
    /// The time was up.
    Slept,
    /// Someone asked for a reconnect. They know something the loop does not: the machine has woken,
    /// or the link has come back.
    Asked,
    /// The line changed, and the address the endpoint is reached from moved with it, or did not.
    Line { moved: bool },
}

/// What happened to the tunnel.
#[derive(Debug)]
pub enum Event {
    /// There is none yet.
    Started,
    /// One opened: the attempt succeeded, or the one before handed it over.
    Opened { stages: Stages },
    /// It did not open.
    NotOpened { problem: ConnectError },
    /// It did not open in time.
    TimedOut,
    /// It stopped carrying, having lived so long and brought back so many bytes. `upgraded` where it
    /// was handed over by one that carried over HTTP/2 a moment before.
    Ended { reason: String, carrier: Carrier, upgraded: bool, lived: u64, carried: u64 },
    /// The wait before the next attempt ended.
    Woke(Woken),
}

/// What to do about it.
#[derive(Debug, PartialEq, Eq)]
pub enum Action {
    /// Open a tunnel: the so-manieth attempt. `unpark` where HTTP/3 is worth another try first.
    Open { attempt: usize, unpark: bool },
    /// Carry packets over the tunnel that opened.
    Carry { stages: Stages },
    /// There is no tunnel, for this reason: wait so long.
    Wait {
        reason: String,
        retry_in: u64,
        /// Something on the way refused the handshake.
        blocked: bool,
        /// Leave HTTP/3 alone for a while.
        park: bool,
        /// So many tunnels in a row died having carried almost nothing, and that is worth saying.
        cut_short: Option<usize>,
        /// The endpoint declined this device with this status: replace it.
        replace: Option<u16>,
    },
}

/// An action, its reason as characters.
pub ghost enum ActionState {
    Open { attempt: usize, unpark: bool },
    Carry { stages: Stages },
    Wait {
        reason: Seq<char>,
        retry_in: u64,
        blocked: bool,
        park: bool,
        cut_short: Option<usize>,
        replace: Option<u16>,
    },
}

impl View for Action {
    type V = ActionState;

    open spec fn view(&self) -> ActionState {
        match *self {
            Action::Open { attempt, unpark } => ActionState::Open { attempt, unpark },
            Action::Carry { stages } => ActionState::Carry { stages },
            Action::Wait { reason, retry_in, blocked, park, cut_short, replace } => {
                ActionState::Wait {
                    reason: reason@,
                    retry_in,
                    blocked,
                    park,
                    cut_short,
                    replace,
                }
            },
        }
    }
}

/// How long to wait after so many failures in a row.
pub open spec fn backoff(failures: usize) -> u64 {
    if failures == 0 {
        1000
    } else if failures == 1 {
        2000
    } else if failures == 2 {
        4000
    } else if failures == 3 {
        8000
    } else {
        15000
    }
}

/// How many tunnels in a row were cut short, after one more life.
pub open spec fn cut_run(engine: Engine, lived: u64, carried: u64) -> usize {
    if lived < CUT_SHORT_WITHIN && carried < CUT_SHORT_BYTES {
        one_more(engine.cut_short)
    } else {
        0
    }
}

/// What the engine remembers after an event, and what is to be done about it.
pub open spec fn stepped(engine: Engine, event: Event) -> (Engine, ActionState) {
    match event {
        Event::Started => (
            engine,
            ActionState::Open { attempt: one_more(engine.attempts), unpark: false },
        ),
        // What matters for the next backoff is whether a tunnel came up at all, and it did.
        Event::Opened { stages } => (
            Engine { failures: 0, attempts: 0, ..engine },
            ActionState::Carry { stages },
        ),
        Event::NotOpened { problem } => (
            Engine {
                failures: one_more(engine.failures),
                attempts: one_more(engine.attempts),
                ..engine
            },
            ActionState::Wait {
                reason: connect_text(problem),
                retry_in: backoff(engine.failures),
                blocked: problem is HandshakeCut || problem is H3Unanswered,
                park: false,
                cut_short: None,
                replace: match problem {
                    ConnectError::Refused(status) => if about_the_device(status) {
                        Some(status)
                    } else {
                        None
                    },
                    _ => None,
                },
            },
        ),
        Event::TimedOut => (
            Engine {
                failures: one_more(engine.failures),
                attempts: one_more(engine.attempts),
                ..engine
            },
            ActionState::Wait {
                reason: "the tunnel did not open within 20 s"@,
                retry_in: backoff(engine.failures),
                blocked: false,
                park: false,
                cut_short: None,
                replace: None,
            },
        ),
        Event::Ended { reason, carrier, upgraded, lived, carried } => {
            let run = cut_run(engine, lived, carried);
            (
                // No attempt failed here: the tunnel came up, and the next attempt is the first.
                Engine { failures: one_more(engine.failures), cut_short: run, ..engine },
                ActionState::Wait {
                    reason: reason@,
                    retry_in: backoff(engine.failures),
                    blocked: false,
                    // The same run that is evidence of a limit is the reason to step down from
                    // HTTP/3. One short life is not enough, unless HTTP/2 was carrying a moment
                    // before: then the line is not what went away.
                    park: run > 0 && (run >= CUT_SHORT_RUN || upgraded) && carrier == Carrier::H3,
                    cut_short: if run >= CUT_SHORT_RUN {
                        Some(run)
                    } else {
                        None
                    },
                    replace: None,
                },
            )
        },
        Event::Woke(woken) => (
            engine,
            ActionState::Open {
                attempt: one_more(engine.attempts),
                unpark: match woken {
                    Woken::Slept => false,
                    Woken::Asked => true,
                    Woken::Line { moved } => moved,
                },
            },
        ),
    }
}

impl Engine {
    pub fn new() -> (engine: Self)
        ensures
            engine == (Engine { failures: 0, attempts: 0, cut_short: 0 }),
    {
        Engine { failures: 0, attempts: 0, cut_short: 0 }
    }

    /// The wait before the next attempt, and one failure more.
    fn back_off(&mut self) -> (retry_in: u64)
        ensures
            retry_in == backoff(old(self).failures),
            *final(self) == (Engine { failures: one_more(old(self).failures), ..*old(self) }),
    {
        let last: usize = 4;
        let at: usize = if self.failures < last {
            self.failures
        } else {
            last
        };
        self.failures = next_count(self.failures);
        BACKOFF[at]
    }

    /// Go on from what happened. Every failure is a reason to open another tunnel, not a reason to
    /// stop: stopping is the caller's decision.
    pub fn step(&mut self, event: Event) -> (action: Action)
        ensures
            stepped(*old(self), event) == (*final(self), action@),
    {
        match event {
            Event::Started => Action::Open { attempt: next_count(self.attempts), unpark: false },
            Event::Opened { stages } => {
                self.failures = 0;
                self.attempts = 0;
                Action::Carry { stages }
            },
            Event::NotOpened { problem } => {
                let replace = match &problem {
                    ConnectError::Refused(status) => if refusal_is_about_the_device(*status) {
                        Some(*status)
                    } else {
                        None
                    },
                    _ => None,
                };
                let blocked = problem.is_blocked();
                self.attempts = next_count(self.attempts);
                Action::Wait {
                    reason: problem.text(),
                    retry_in: self.back_off(),
                    blocked,
                    park: false,
                    cut_short: None,
                    replace,
                }
            },
            Event::TimedOut => {
                self.attempts = next_count(self.attempts);
                Action::Wait {
                    reason: String::from_str("the tunnel did not open within 20 s"),
                    retry_in: self.back_off(),
                    blocked: false,
                    park: false,
                    cut_short: None,
                    replace: None,
                }
            },
            Event::Ended { reason, carrier, upgraded, lived, carried } => {
                let mut park = false;
                let mut cut_short = None;
                if cut_short_life(lived, carried) {
                    self.cut_short = next_count(self.cut_short);
                    if (self.cut_short >= CUT_SHORT_RUN || upgraded) && carrier == Carrier::H3 {
                        park = true;
                    }
                    if self.cut_short >= CUT_SHORT_RUN {
                        cut_short = Some(self.cut_short);
                    }
                } else {
                    self.cut_short = 0;
                }
                Action::Wait {
                    reason,
                    retry_in: self.back_off(),
                    blocked: false,
                    park,
                    cut_short,
                    replace: None,
                }
            },
            Event::Woke(woken) => Action::Open {
                attempt: next_count(self.attempts),
                unpark: match woken {
                    Woken::Slept => false,
                    Woken::Asked => true,
                    Woken::Line { moved } => moved,
                },
            },
        }
    }
}

impl Default for Engine {
    fn default() -> (engine: Self)
        ensures
            engine == (Engine { failures: 0, attempts: 0, cut_short: 0 }),
    {
        Engine::new()
    }
}

/// Whether this is the phase an action is performed in.
pub open spec fn is_phase_of(phase: Phase, action: ActionState) -> bool {
    match action {
        ActionState::Open { attempt, .. } => phase == (Phase::Connecting { attempt }),
        ActionState::Carry { stages } => phase == (Phase::Up { stages }),
        ActionState::Wait { reason, retry_in, blocked, .. } => match phase {
            Phase::Lost { reason: said, retry_in: wait, blocked: cut } => said@ == reason && wait
                == retry_in && cut == blocked,
            _ => false,
        },
    }
}

/// An action is about to be performed: that is what the engine is doing now.
pub fn enter(core: &mut Core, action: &Action)
    ensures
        old(core).wf() ==> final(core).wf(),
        final(core)@ == (CoreState { phase: final(core)@.phase, ..old(core)@ }),
        is_phase_of(final(core)@.phase, action@),
{
    let phase = match action {
        Action::Open { attempt, .. } => Phase::Connecting { attempt: *attempt },
        Action::Carry { stages } => Phase::Up { stages: *stages },
        Action::Wait { reason, retry_in, blocked, .. } => Phase::Lost {
            reason: reason.clone(),
            retry_in: *retry_in,
            blocked: *blocked,
        },
    };
    core.set_phase(phase);
}

/// The address to ask from whether the tunnel carries IPv6, once it opened: none where it is not
/// worth asking, or the device has no such address.
pub fn ipv6_to_probe(core: &Core, identity: &Identity) -> (inside: Option<u128>)
    ensures
        inside == if core@.v6 == Ipv6Support::DoesNot {
            None
        } else {
            match address_written(identity.assigned_v6@) {
                Some(IpAddr::V6(address)) => Some(address),
                _ => None,
            }
        },
{
    if !core.should_probe_ipv6() {
        return None;
    }
    match parse(identity.assigned_v6.as_str()) {
        Some(IpAddr::V6(address)) => Some(address),
        _ => None,
    }
}

/// The wait never shrinks while failures go on, is never over the last entry, and starts over once a
/// tunnel came up.
pub proof fn law_the_wait_grows_until_a_tunnel_comes_up(engine: Engine, event: Event, stages: Stages)
    requires
        event is NotOpened || event is TimedOut || event is Ended,
    ensures
        ({
            let (after, action) = stepped(engine, event);
            &&& action is Wait
            &&& 1000 <= action->retry_in <= 15000
            &&& backoff(engine.failures) <= backoff(after.failures)
            &&& stepped(stepped(after, Event::Opened { stages }).0, event).1->retry_in == 1000
        }),
{
}

/// What the engine remembers after a run of events.
pub open spec fn after_all(engine: Engine, events: Seq<Event>) -> Engine
    decreases events.len(),
{
    if events.len() == 0 {
        engine
    } else {
        stepped(after_all(engine, events.drop_last()), events.last()).0
    }
}

/// How many attempts failed in a run of events.
pub open spec fn failed_attempts(events: Seq<Event>) -> nat
    decreases events.len(),
{
    if events.len() == 0 {
        0
    } else {
        failed_attempts(events.drop_last()) + if events.last() is NotOpened || events.last()
            is TimedOut {
            1nat
        } else {
            0nat
        }
    }
}

/// Attempts count from one, and from one again whenever a tunnel comes up, however it is lost: the
/// next attempt is one more than have failed since.
pub proof fn law_attempts_count_from_one(
    engine: Engine,
    stages: Stages,
    events: Seq<Event>,
    woken: Woken,
)
    requires
        forall|i: int| 0 <= i < events.len() ==> !((#[trigger] events[i]) is Opened),
        failed_attempts(events) < usize::MAX,
    ensures
        ({
            let up = stepped(engine, Event::Opened { stages }).0;
            stepped(after_all(up, events), Event::Woke(woken)).1->attempt == failed_attempts(
                events,
            ) + 1
        }),
        ({
            let fresh = Engine { failures: 0, attempts: 0, cut_short: 0 };
            stepped(after_all(fresh, events), Event::Woke(woken)).1->attempt == failed_attempts(
                events,
            ) + 1
        }),
{
    lemma_attempts_failed(stepped(engine, Event::Opened { stages }).0, events);
    lemma_attempts_failed(Engine { failures: 0, attempts: 0, cut_short: 0 }, events);
}

/// The attempts that are remembered are those that failed since a tunnel came up.
proof fn lemma_attempts_failed(up: Engine, events: Seq<Event>)
    requires
        up.attempts == 0,
        forall|i: int| 0 <= i < events.len() ==> !((#[trigger] events[i]) is Opened),
        failed_attempts(events) < usize::MAX,
    ensures
        after_all(up, events).attempts == failed_attempts(events),
    decreases events.len(),
{
    if events.len() > 0 {
        let before = events.drop_last();
        assert forall|i: int| 0 <= i < before.len() implies !((#[trigger] before[i]) is Opened) by {
            assert(before[i] == events[i]);
        }
        lemma_attempts_failed(up, before);
    }
}

/// A run of lives cut short steps down from HTTP/3; one life that was not ends the run.
pub proof fn law_one_long_life_ends_a_run_of_short_ones(
    engine: Engine,
    reason: String,
    carrier: Carrier,
    upgraded: bool,
    lived: u64,
    carried: u64,
)
    ensures
        ({
            let event = Event::Ended { reason, carrier, upgraded, lived, carried };
            let (after, action) = stepped(engine, event);
            &&& !(lived < CUT_SHORT_WITHIN && carried < CUT_SHORT_BYTES) ==> after.cut_short == 0
                && !action->park && action->cut_short is None
            &&& carrier == Carrier::H2 ==> !action->park
            &&& lived < CUT_SHORT_WITHIN && carried < CUT_SHORT_BYTES && engine.cut_short + 1
                >= CUT_SHORT_RUN && carrier == Carrier::H3 ==> action->park
        }),
{
}

/// What can happen while a tunnel carries. What a layer below said is kept as its words.
#[derive(Debug)]
pub enum PumpEvent {
    /// Packets could not be sent into the tunnel.
    SendFailed(String),
    /// The thread reading the adapter has ended.
    AdapterEnded,
    /// Reading from the tunnel failed.
    ReceiveFailed(String),
    /// The endpoint closed the tunnel.
    Closed,
    /// A packet could not be written to the adapter.
    WriteFailed(String),
    /// The endpoint answered. What QUIC reports now, where it does, and how many packets the tunnel
    /// has brought back.
    Answered { stats: Option<LinkStats>, read: u64 },
    /// Asking the endpoint failed.
    ProbeFailed(String),
    /// The endpoint did not answer in time.
    ProbeTimedOut,
    /// The line changed, and the address the endpoint is reached from moved with it, or did not.
    LineChanged { moved: bool },
    /// A reconnect was asked for.
    ReconnectAsked,
    /// It is time to look at whether HTTP/3 may be tried again, and this is what an attempt made now
    /// would do.
    UpgradeDue { plan: Plan },
    /// HTTP/3 opened beside this tunnel.
    UpgradeOpened,
    /// HTTP/3 did not open beside this tunnel.
    UpgradeFailed(String),
    /// HTTP/3 did not open beside this tunnel in time.
    UpgradeTimedOut,
}

/// What to do about it.
#[derive(Debug, PartialEq, Eq)]
pub enum PumpAction {
    /// Carry on.
    Carry,
    /// Carry on, and report this of the path.
    Report(PathReading),
    /// Let the line settle, then ask the endpoint. `unpark` where HTTP/3 is worth another try.
    Settle { unpark: bool },
    /// Open HTTP/3 beside this tunnel.
    TryHttp3,
    /// Carry on and leave HTTP/3 alone for a while, for this reason.
    Park { problem: String },
    /// Stop, for this reason. `unpark` where HTTP/3 is worth another try, and `stop_core` where no
    /// other tunnel would carry either.
    Stop { reason: String, unpark: bool, stop_core: bool },
    /// Stop, and carry over the tunnel that opened beside this one.
    HandOver,
}

/// An action, its words as characters.
pub ghost enum PumpActionState {
    Carry,
    Report(PathReading),
    Settle { unpark: bool },
    TryHttp3,
    Park { problem: Seq<char> },
    Stop { reason: Seq<char>, unpark: bool, stop_core: bool },
    HandOver,
}

impl View for PumpAction {
    type V = PumpActionState;

    open spec fn view(&self) -> PumpActionState {
        match *self {
            PumpAction::Carry => PumpActionState::Carry,
            PumpAction::Report(reading) => PumpActionState::Report(reading),
            PumpAction::Settle { unpark } => PumpActionState::Settle { unpark },
            PumpAction::TryHttp3 => PumpActionState::TryHttp3,
            PumpAction::Park { problem } => PumpActionState::Park { problem: problem@ },
            PumpAction::Stop { reason, unpark, stop_core } => PumpActionState::Stop {
                reason: reason@,
                unpark,
                stop_core,
            },
            PumpAction::HandOver => PumpActionState::HandOver,
        }
    }
}

/// One tunnel while it carries.
#[derive(Debug, Clone, Copy, PartialEq, Eq)]
pub struct Pump {
    pub carrying: Carrier,
    /// What had been counted when the pump started, datagrams QUIC received and packets brought
    /// back, so the readings describe this tunnel's traffic and not the exchange that opened it.
    pub baseline: Option<(u64, u64)>,
}

/// A count since another.
pub open spec fn count_since(now: u64, before: u64) -> u64 {
    if now < before {
        0
    } else {
        (now - before) as u64
    }
}

/// A count since another, none where it fell behind.
pub fn counted_since(now: u64, before: u64) -> (count: u64)
    ensures
        count == count_since(now, before),
{
    if now < before {
        0
    } else {
        now - before
    }
}

/// A pump that stops for a reason and nothing else.
pub open spec fn stops(reason: Seq<char>) -> PumpActionState {
    PumpActionState::Stop { reason, unpark: false, stop_core: false }
}

/// What is to be done about an event.
pub open spec fn pumped(pump: Pump, event: PumpEvent) -> PumpActionState {
    match event {
        PumpEvent::SendFailed(said) => stops("sending into the tunnel: "@ + said@),
        // Another tunnel would be opened to carry packets that nothing is delivering any more.
        // Reconnecting cannot reach it, so the core is asked to stop.
        PumpEvent::AdapterEnded => PumpActionState::Stop {
            reason: "the adapter stopped delivering packets"@,
            unpark: false,
            stop_core: true,
        },
        PumpEvent::ReceiveFailed(said) => stops("reading from the tunnel: "@ + said@),
        PumpEvent::Closed => stops("the endpoint closed the tunnel"@),
        PumpEvent::WriteFailed(said) => stops("writing to the adapter: "@ + said@),
        PumpEvent::Answered { stats, read } => match (pump.baseline, stats) {
            (Some((datagrams, before)), Some(stats)) => PumpActionState::Report(
                PathReading {
                    rtt: stats.rtt,
                    cwnd: stats.cwnd,
                    sent: stats.sent,
                    lost: stats.lost,
                    datagrams: count_since(stats.datagrams_in, datagrams),
                    read: count_since(read, before),
                },
            ),
            _ => PumpActionState::Carry,
        },
        PumpEvent::ProbeFailed(said) => stops("the endpoint stopped answering: "@ + said@),
        PumpEvent::ProbeTimedOut => stops("the endpoint did not answer within 5 s"@),
        PumpEvent::LineChanged { moved } => PumpActionState::Settle { unpark: moved },
        PumpEvent::ReconnectAsked => PumpActionState::Stop {
            reason: "a reconnect was asked for"@,
            unpark: true,
            stop_core: false,
        },
        PumpEvent::UpgradeDue { plan } => if pump.carrying == Carrier::H2 && plan
            == Plan::H3ThenH2 {
            PumpActionState::TryHttp3
        } else {
            PumpActionState::Carry
        },
        PumpEvent::UpgradeOpened => PumpActionState::HandOver,
        PumpEvent::UpgradeFailed(said) => PumpActionState::Park { problem: said@ },
        PumpEvent::UpgradeTimedOut => PumpActionState::Park {
            problem: "it did not open within 20 s"@,
        },
    }
}

impl Pump {
    /// A pump for a tunnel that just opened: what QUIC reports, where it does, and how many packets
    /// have been brought back so far.
    pub fn new(carrying: Carrier, stats: Option<LinkStats>, read: u64) -> (pump: Self)
        ensures
            pump.carrying == carrying,
            pump.baseline == match stats {
                Some(stats) => Some((stats.datagrams_in, read)),
                None => None,
            },
    {
        Pump {
            carrying,
            baseline: match stats {
                Some(stats) => Some((stats.datagrams_in, read)),
                None => None,
            },
        }
    }

    /// Go on from what happened.
    pub fn step(&self, event: PumpEvent) -> (action: PumpAction)
        ensures
            action@ == pumped(*self, event),
    {
        match event {
            PumpEvent::SendFailed(said) => stop(joined("sending into the tunnel: ", said.as_str())),
            PumpEvent::AdapterEnded => PumpAction::Stop {
                reason: String::from_str("the adapter stopped delivering packets"),
                unpark: false,
                stop_core: true,
            },
            PumpEvent::ReceiveFailed(said) => stop(
                joined("reading from the tunnel: ", said.as_str()),
            ),
            PumpEvent::Closed => stop(String::from_str("the endpoint closed the tunnel")),
            PumpEvent::WriteFailed(said) => stop(
                joined("writing to the adapter: ", said.as_str()),
            ),
            PumpEvent::Answered { stats, read } => match (self.baseline, stats) {
                (Some((datagrams, before)), Some(stats)) => PumpAction::Report(
                    PathReading {
                        rtt: stats.rtt,
                        cwnd: stats.cwnd,
                        sent: stats.sent,
                        lost: stats.lost,
                        datagrams: counted_since(stats.datagrams_in, datagrams),
                        read: counted_since(read, before),
                    },
                ),
                _ => PumpAction::Carry,
            },
            PumpEvent::ProbeFailed(said) => stop(
                joined("the endpoint stopped answering: ", said.as_str()),
            ),
            PumpEvent::ProbeTimedOut => stop(
                String::from_str("the endpoint did not answer within 5 s"),
            ),
            PumpEvent::LineChanged { moved } => PumpAction::Settle { unpark: moved },
            PumpEvent::ReconnectAsked => PumpAction::Stop {
                reason: String::from_str("a reconnect was asked for"),
                unpark: true,
                stop_core: false,
            },
            PumpEvent::UpgradeDue { plan } => if self.carrying == Carrier::H2 && plan
                == Plan::H3ThenH2 {
                PumpAction::TryHttp3
            } else {
                PumpAction::Carry
            },
            PumpEvent::UpgradeOpened => PumpAction::HandOver,
            PumpEvent::UpgradeFailed(said) => PumpAction::Park { problem: said },
            PumpEvent::UpgradeTimedOut => PumpAction::Park {
                problem: String::from_str("it did not open within 20 s"),
            },
        }
    }
}

fn stop(reason: String) -> (action: PumpAction)
    ensures
        action@ == stops(reason@),
{
    PumpAction::Stop { reason, unpark: false, stop_core: false }
}

/// Only a tunnel over HTTP/2 looks for HTTP/3, and only the adapter ending stops the core.
pub proof fn law_only_http2_is_upgraded_and_only_the_adapter_stops_the_core(
    pump: Pump,
    event: PumpEvent,
)
    ensures
        pumped(pump, event) is TryHttp3 ==> pump.carrying == Carrier::H2,
        pumped(pump, event) matches PumpActionState::Stop { stop_core, .. } && stop_core ==> event
            is AdapterEnded,
{
}

/// What became of replacing a device the endpoint declined.
#[derive(Debug)]
pub enum Replaced {
    /// Another is registered and written down.
    Yes,
    /// One was registered too recently for that to be the reason.
    TooSoon,
    /// Another could not be registered, and what was said about it.
    Failed(String),
}

/// The endpoint declined this device, and another was asked for.
///
/// Where there is one, the core stops rather than carrying on. A fresh registration brings fresh
/// addresses inside the tunnel while the adapter still carries the old ones, and changing an
/// interface's address under a running core is a great deal of care for an event that happens almost
/// never.
pub fn replace_device(core: &mut Core, replaced: &Replaced)
    ensures
        old(core).wf() ==> final(core).wf(),
        final(core)@ == if *replaced is Yes {
            CoreState { stop: true, ..old(core)@ }
        } else {
            old(core)@
        },
{
    match replaced {
        Replaced::Yes => core.stop(),
        _ => {},
    }
}

/// Where a packet is going.
pub open spec fn going_to(packet: Seq<u8>) -> Option<IpAddr> {
    if version(packet) == 4 && packet.len() >= 20 {
        Some(IpAddr::V4(number(packet.subrange(16, 20)) as u32))
    } else if version(packet) == 6 && packet.len() >= 40 {
        Some(IpAddr::V6(number(packet.subrange(24, 40)) as u128))
    } else {
        None
    }
}

/// Where a packet is going, or `None` when it is not an IP packet this core understands.
pub fn destination(packet: &[u8]) -> (to: Option<IpAddr>)
    ensures
        to == going_to(packet@),
{
    if packet.len() == 0 {
        return None;
    }
    let version = packet[0] / 16;
    if version == 4 && packet.len() >= 20 {
        let octets = vstd::slice::slice_subrange(packet, 16, 20);
        proof {
            lemma_number_bound(octets@);
            lemma_pow256();
        }
        Some(IpAddr::V4(number_of(octets) as u32))
    } else if version == 6 && packet.len() >= 40 {
        let octets = vstd::slice::slice_subrange(packet, 24, 40);
        proof {
            lemma_number_bound(octets@);
            lemma_pow256();
        }
        Some(IpAddr::V6(number_of(octets)))
    } else {
        None
    }
}

/// What has gone out, with a run of packets more.
pub open spec fn counted_batch(count: (u64, u64), batch: Seq<Vec<u8>>) -> (u64, u64)
    decreases batch.len(),
{
    if batch.len() == 0 {
        count
    } else {
        counted_packet(counted_batch(count, batch.drop_last()), batch.last()@.len() as int)
    }
}

/// The leases, each renewed that a packet of a run is going to.
pub open spec fn renewed_by(leases: Seq<LeaseState>, batch: Seq<Vec<u8>>, moment: u64) -> Seq<
    LeaseState,
>
    decreases batch.len(),
{
    if batch.len() == 0 {
        leases
    } else {
        let before = renewed_by(leases, batch.drop_last(), moment);
        match going_to(batch.last()@) {
            Some(address) => touched(before, address, moment),
            None => before,
        }
    }
}

/// Account for a run of packets on its way out.
///
/// An address carrying traffic must not have its route expire underneath it: the next packet would
/// leave by another interface with another source address, and the connection would be dead.
pub fn account(core: &mut Core, resolver: &mut Resolver, batch: &Vec<Vec<u8>>, now: u64)
    requires
        old(core).wf(),
        old(resolver).wf(),
    ensures
        final(core).wf(),
        final(resolver).wf(),
        final(core)@ == (CoreState { counters: final(core)@.counters, ..old(core)@ }),
        final(core)@.counters.back == old(core)@.counters.back,
        final(core)@.counters.out.count() == counted_batch(
            old(core)@.counters.out.count(),
            batch@,
        ),
        final(resolver).held() == renewed_by(
            old(resolver).held(),
            batch@,
            since(old(resolver).start(), now),
        ),
        final(resolver).start() == old(resolver).start(),
        final(resolver).policy() == old(resolver).policy(),
        final(resolver).ready() == old(resolver).ready(),
        final(resolver).counts() == old(resolver).counts(),
        final(resolver).wanted() == old(resolver).wanted(),
        final(resolver).at() == old(resolver).at(),
        final(resolver).asking() == old(resolver).asking(),
{
    let mut i: usize = 0;
    assert(batch@.take(0) =~= Seq::empty());
    while i < batch.len()
        invariant
            core.wf(),
            resolver.wf(),
            i <= batch.len(),
            core@ == (CoreState { counters: core@.counters, ..old(core)@ }),
            core@.counters.back == old(core)@.counters.back,
            core@.counters.out.count() == counted_batch(
                old(core)@.counters.out.count(),
                batch@.take(i as int),
            ),
            resolver.held() == renewed_by(
                old(resolver).held(),
                batch@.take(i as int),
                since(old(resolver).start(), now),
            ),
            resolver.start() == old(resolver).start(),
            resolver.policy() == old(resolver).policy(),
            resolver.ready() == old(resolver).ready(),
            resolver.counts() == old(resolver).counts(),
            resolver.wanted() == old(resolver).wanted(),
            resolver.at() == old(resolver).at(),
            resolver.asking() == old(resolver).asking(),
        decreases batch.len() - i,
    {
        assert(batch@.take(i + 1).drop_last() =~= batch@.take(i as int));
        core.count_out(batch[i].len());
        if let Some(address) = destination(batch[i].as_slice()) {
            resolver.touch(address, now);
        }
        i += 1;
    }
    assert(batch@.take(i as int) =~= batch@);
}

/// Where a packet is going is what its destination field spells, the first octet the most
/// significant: bytes 16 to 19 of an IPv4 packet, bytes 24 to 39 of an IPv6 one. Anything shorter than
/// its header, or of another version, is going nowhere that is understood.
pub proof fn law_a_packet_goes_where_it_says(packet: Seq<u8>)
    ensures
        packet.len() >= 20 && packet[0] / 16 == 4 ==> going_to(packet) == Some(
            IpAddr::V4(
                (((packet[16] * 256 + packet[17]) * 256 + packet[18]) * 256 + packet[19]) as u32,
            ),
        ),
        packet.len() >= 40 && packet[0] / 16 == 6 ==> (going_to(packet) matches Some(IpAddr::V6(to))
            && number(packet.subrange(24, 40)) == to),
        packet.len() == 0 || (packet[0] / 16 != 4 && packet[0] / 16 != 6) || packet.len() < 20 || (
        packet[0] / 16 == 6 && packet.len() < 40) ==> going_to(packet) is None,
{
    if packet.len() >= 20 && packet[0] / 16 == 4 {
        let octets = packet.subrange(16, 20);
        lemma_number_bound(octets);
        lemma_pow256();
        reveal_with_fuel(number, 5);
        assert(octets.drop_last() =~= packet.subrange(16, 19));
        assert(packet.subrange(16, 19).drop_last() =~= packet.subrange(16, 18));
        assert(packet.subrange(16, 18).drop_last() =~= packet.subrange(16, 17));
        assert(packet.subrange(16, 17).drop_last() =~= Seq::<u8>::empty());
        assert(number(octets) == ((packet[16] * 256 + packet[17]) * 256 + packet[18]) * 256
            + packet[19]);
    }
    if packet.len() >= 40 && packet[0] / 16 == 6 {
        lemma_number_bound(packet.subrange(24, 40));
        lemma_pow256();
    }
}

/// Traffic renews whatever it is going to: after a run of packets every lease on an address that some
/// packet of the run is going to, at whatever place in the run, lasts at least ten minutes from the
/// moment of the run, and no less than it did; it is held at the same place, for the same address and
/// the same names. A lease that no packet of the run is going to is left as it was.
pub proof fn law_every_packet_renews_its_address(
    leases: Seq<LeaseState>,
    batch: Seq<Vec<u8>>,
    moment: u64,
    at: int,
)
    requires
        tidy(leases),
        0 <= at < leases.len(),
    ensures
        ({
            let after = renewed_by(leases, batch, moment);
            &&& after.len() == leases.len()
            &&& after[at].address == leases[at].address
            &&& after[at].names == leases[at].names
            &&& after[at].expires >= leases[at].expires
            &&& forall|k: int|
                0 <= k < batch.len() && going_to((#[trigger] batch[k])@) == Some(
                    leases[at].address,
                ) ==> after[at].expires >= moment + 600_000 || after[at].expires == u64::MAX
            &&& (forall|k: int|
                0 <= k < batch.len() ==> going_to((#[trigger] batch[k])@) != Some(
                    leases[at].address,
                )) ==> after[at] == leases[at]
            &&& after[at].expires <= leases[at].expires || after[at].expires <= moment + 600_000
        }),
{
    lemma_renewed(leases, batch, moment, at);
}

proof fn lemma_renewed(leases: Seq<LeaseState>, batch: Seq<Vec<u8>>, moment: u64, at: int)
    requires
        tidy(leases),
        0 <= at < leases.len(),
    ensures
        ({
            let after = renewed_by(leases, batch, moment);
            &&& after.len() == leases.len()
            &&& forall|i: int|
                0 <= i < leases.len() ==> (#[trigger] after[i]).address == leases[i].address
                    && after[i].names == leases[i].names
            &&& after[at].expires >= leases[at].expires
            &&& forall|k: int|
                0 <= k < batch.len() && going_to((#[trigger] batch[k])@) == Some(
                    leases[at].address,
                ) ==> after[at].expires >= moment + 600_000 || after[at].expires == u64::MAX
            &&& (forall|k: int|
                0 <= k < batch.len() ==> going_to((#[trigger] batch[k])@) != Some(
                    leases[at].address,
                )) ==> after[at] == leases[at]
            &&& after[at].expires <= leases[at].expires || after[at].expires <= moment + 600_000
        }),
    decreases batch.len(),
{
    if batch.len() > 0 {
        let earlier = batch.drop_last();
        let before = renewed_by(leases, earlier, moment);
        lemma_renewed(leases, earlier, moment, at);
        assert(forall|k: int| 0 <= k < earlier.len() ==> earlier[k] == #[trigger] batch[k]);
        assert(tidy(before));
        let last = batch.len() - 1;
        if let Some(address) = going_to(batch[last]@) {
            law_traffic_moves_one_expiry_out(before, address, moment, at);
            let after = touched(before, address, moment);
            assert forall|i: int| 0 <= i < leases.len() implies (#[trigger] after[i]).address
                == leases[i].address && after[i].names == leases[i].names by {
                law_traffic_moves_one_expiry_out(before, address, moment, i);
                assert(before[i].address == leases[i].address);
            }
        }
        let after = renewed_by(leases, batch, moment);
        assert forall|k: int|
            0 <= k < batch.len() && going_to((#[trigger] batch[k])@) == Some(
                leases[at].address,
            ) implies after[at].expires >= moment + 600_000 || after[at].expires == u64::MAX by {
            if k < earlier.len() {
                assert(going_to(earlier[k]@) == Some(leases[at].address));
            }
        }
        if forall|k: int|
            0 <= k < batch.len() ==> going_to((#[trigger] batch[k])@) != Some(leases[at].address) {
            assert forall|k: int| 0 <= k < earlier.len() implies going_to((#[trigger] earlier[k])@)
                != Some(leases[at].address) by {
                assert(earlier[k] == batch[k]);
            }
            assert(going_to(batch[last]@) != Some(leases[at].address));
        }
    }
}

/// A run counts every packet in it and every byte of each, round the end of a counter where it comes
/// to that.
pub proof fn law_every_packet_is_counted(count: (u64, u64), batch: Seq<Vec<u8>>)
    ensures
        counted_batch(count, batch).0 == (count.0 + batch.len()) % 0x1_0000_0000_0000_0000,
        counted_batch(count, batch).1 == (count.1 + run_bytes(batch)) % 0x1_0000_0000_0000_0000,
    decreases batch.len(),
{
    if batch.len() > 0 {
        law_every_packet_is_counted(count, batch.drop_last());
    }
}

/// The bytes of a run of packets.
pub open spec fn run_bytes(batch: Seq<Vec<u8>>) -> nat {
    batch.fold_left(0nat, |bytes: nat, packet: Vec<u8>| bytes + packet@.len())
}

/// Where this machine reaches the HTTP/3 endpoint from, and whether that has moved.
///
/// A line change is any notification about an interface that is not this core's, and a wireless
/// adapter sends them every few seconds while nothing about the path moves. What says the line
/// HTTP/3 was refused on is no longer the one in use is the source address the route to the endpoint
/// gives, so that is what is compared.
#[derive(Debug, Clone, Copy, PartialEq, Eq, Structural)]
pub struct EndpointLine {
    pub endpoint: Option<IpAddr>,
    pub from: Option<IpAddr>,
}

impl EndpointLine {
    /// The endpoint a device dials over HTTP/3, before it is known where it is reached from.
    pub fn new(identity: &Identity) -> (line: Self)
        ensures
            line.endpoint == address_written(
                if identity.endpoint_v4@.len() == 0 {
                    ENDPOINT_H3_V4@
                } else {
                    identity.endpoint_v4@
                },
            ),
            line.from is None,
    {
        EndpointLine { endpoint: parse(identity.endpoint_h3_v4()), from: None }
    }

    /// Take in the source address looked up again, and say whether it differs from the last one
    /// seen. With no endpoint to look it up for, every change counts.
    pub fn moved(&mut self, now: Option<IpAddr>) -> (moved: bool)
        ensures
            final(self).endpoint == old(self).endpoint,
            match old(self).endpoint {
                None => moved && final(self).from == old(self).from,
                Some(_) => moved == (old(self).from != now) && final(self).from == now,
            },
    {
        match self.endpoint {
            None => true,
            Some(_) => source_moved(&mut self.from, now),
        }
    }
}

/// Record `now` as the source address, and say whether it differs from what was recorded.
pub fn source_moved(seen: &mut Option<IpAddr>, now: Option<IpAddr>) -> (moved: bool)
    ensures
        *final(seen) == now,
        moved == (*old(seen) != now),
{
    let moved = match (*seen, now) {
        (None, None) => false,
        (Some(before), Some(after)) => before != after,
        _ => true,
    };
    *seen = now;
    moved
}

} // verus!
