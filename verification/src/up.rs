//! Running until stopped, and the order of stopping.

use vstd::prelude::*;
use vstd::string::StringExecFns;
use crate::address::shown::{show, shown};
use crate::address::IpAddr;
use crate::text::{decimal, digits, joined};
use crate::tun::prefixes::Prefix;

verus! {

/// How often the traffic counters are written out while the tunnel is up, in milliseconds.
pub const REPORT_EVERY: u64 = 2000;

/// How long the thread reading the adapter is given to leave the driver once its session ends, in
/// milliseconds.
///
/// It returns in microseconds when it is waiting for a packet, which is almost always. The wait
/// exists for the other case, a reader parked handing over a packet the stopped tunnel is no longer
/// taking, and it is bounded because that one never ends on its own.
pub const READER_HANDOVER: u64 = 2000;

/// How often expired leases are collected, in milliseconds.
pub const LEASE_SWEEP: u64 = 30_000;

/// What the adapter is called, and how it describes itself.
pub const ADAPTER_NAME: &'static str = "masqr";

/// The line about a route that was installed.
pub fn route_line(prefix: Prefix) -> (line: String)
    ensures
        line@ == "route     "@ + shown(prefix.0) + "/"@ + digits(prefix.1 as nat) + " → "@
            + ADAPTER_NAME@,
{
    let address = show(prefix.0);
    let length = decimal(prefix.1 as u128);
    let mut line = joined("route     ", address.as_str());
    line.append("/");
    line.append(length.as_str());
    line.append(" → ");
    line.append(ADAPTER_NAME);
    line
}

/// The line about the adapter's addresses.
pub fn address_line(inside: IpAddr, inside_v6: IpAddr, mtu: u32) -> (line: String)
    ensures
        line@ == "address   "@ + shown(inside) + "/32 · "@ + shown(inside_v6) + "/128, mtu "@
            + digits(mtu as nat),
{
    let four = show(inside);
    let six = show(inside_v6);
    let size = decimal(mtu as u128);
    let mut line = joined("address   ", four.as_str());
    line.append("/32 · ");
    line.append(six.as_str());
    line.append("/128, mtu ");
    line.append(size.as_str());
    line
}

/// What happens while the core runs.
#[derive(Debug)]
pub enum Event {
    /// The engine is doing something else now.
    PhaseChanged,
    /// It is time to write the counters out.
    Tick,
    /// The core was asked to stop through the control interface.
    Asked,
    CtrlC,
    /// The control interface failed, or its task ended, and what was said about it.
    ControlFailed(String),
    ControlStopped(String),
    /// The resolver failed, or its task ended, and what was said about it.
    ResolverFailed(String),
    ResolverStopped(String),
}

/// What to do about it.
#[derive(Debug, PartialEq, Eq)]
pub enum Action {
    Announce,
    Report,
    /// Stop, for this reason.
    Stop(String),
}

/// Whether an action is to stop, for this reason.
pub open spec fn stops(action: Action, why: Seq<char>) -> bool {
    action matches Action::Stop(said) && said@ == why
}

/// What an event comes to.
pub fn step(event: Event) -> (action: Action)
    ensures
        match event {
            Event::PhaseChanged => action is Announce,
            Event::Tick => action is Report,
            Event::Asked => stops(action, "asked through the control interface"@),
            Event::CtrlC => stops(action, "on Ctrl-C"@),
            Event::ControlFailed(said) => stops(
                action,
                "the control interface failed: "@ + said@,
            ),
            Event::ControlStopped(said) => stops(
                action,
                "the control interface stopped: "@ + said@,
            ),
            Event::ResolverFailed(said) => stops(action, "the resolver failed: "@ + said@),
            Event::ResolverStopped(said) => stops(action, "the resolver stopped: "@ + said@),
        },
{
    match event {
        Event::PhaseChanged => Action::Announce,
        Event::Tick => Action::Report,
        Event::Asked => Action::Stop(String::from_str("asked through the control interface")),
        Event::CtrlC => Action::Stop(String::from_str("on Ctrl-C")),
        Event::ControlFailed(said) => Action::Stop(
            joined("the control interface failed: ", said.as_str()),
        ),
        Event::ControlStopped(said) => Action::Stop(
            joined("the control interface stopped: ", said.as_str()),
        ),
        Event::ResolverFailed(said) => Action::Stop(
            joined("the resolver failed: ", said.as_str()),
        ),
        Event::ResolverStopped(said) => Action::Stop(
            joined("the resolver stopped: ", said.as_str()),
        ),
    }
}

/// A step of stopping.
///
/// What follows is an order, not a sequence.
#[derive(Debug, Clone, Copy, PartialEq, Eq, Structural)]
pub enum Stopping {
    /// Give the machine's names back, before the adapter and unconditionally: for as long as they
    /// point at a resolver that has stopped answering, the machine has no name resolution at all.
    GiveNamesBack,
    /// Stop hearing about interfaces: a notification arriving later would reach a core that is going
    /// away.
    StopWatching,
    /// Ask the reader to leave, and wait for it. Ending the session instead would wake it, and would
    /// also be a call into a session another thread is inside.
    StopReading,
    /// Nothing is inside the session any more: end it.
    EndSession,
    /// Only once the session has ended may the adapter be closed.
    CloseAdapter,
    /// The reader is parked handing over a packet that nothing drains any more. Rather than take the
    /// session and the adapter down underneath it, leave both to the operating system: they belong
    /// to this process and go when it does, along with every route.
    LeaveToSystem,
    Done,
}

/// What follows a step, where the reader left in time, or did not.
pub open spec fn follows(step: Stopping, reader_left: bool) -> Stopping {
    match step {
        Stopping::GiveNamesBack => Stopping::StopWatching,
        Stopping::StopWatching => Stopping::StopReading,
        Stopping::StopReading => if reader_left {
            Stopping::EndSession
        } else {
            Stopping::LeaveToSystem
        },
        Stopping::EndSession => Stopping::CloseAdapter,
        Stopping::CloseAdapter => Stopping::Done,
        Stopping::LeaveToSystem => Stopping::Done,
        Stopping::Done => Stopping::Done,
    }
}

impl Stopping {
    /// What follows this step, where the reader left in time, or did not.
    pub fn next(self, reader_left: bool) -> (next: Stopping)
        ensures
            next == follows(self, reader_left),
    {
        match self {
            Stopping::GiveNamesBack => Stopping::StopWatching,
            Stopping::StopWatching => Stopping::StopReading,
            Stopping::StopReading => if reader_left {
                Stopping::EndSession
            } else {
                Stopping::LeaveToSystem
            },
            Stopping::EndSession => Stopping::CloseAdapter,
            Stopping::CloseAdapter => Stopping::Done,
            Stopping::LeaveToSystem => Stopping::Done,
            Stopping::Done => Stopping::Done,
        }
    }
}

/// The steps from one on.
pub open spec fn steps_from(step: Stopping, reader_left: bool, count: nat) -> Seq<Stopping>
    decreases count,
{
    if count == 0 || step == Stopping::Done {
        Seq::empty()
    } else {
        seq![step] + steps_from(follows(step, reader_left), reader_left, (count - 1) as nat)
    }
}

/// The session is never ended under a reader that is still inside it, the adapter never closed under
/// a session that has not ended, and the names are given back before anything else goes: the steps
/// are these, and no others.
pub proof fn law_the_order_of_stopping(reader_left: bool)
    ensures
        steps_from(Stopping::GiveNamesBack, reader_left, 6) == if reader_left {
            seq![
                Stopping::GiveNamesBack,
                Stopping::StopWatching,
                Stopping::StopReading,
                Stopping::EndSession,
                Stopping::CloseAdapter,
            ]
        } else {
            seq![
                Stopping::GiveNamesBack,
                Stopping::StopWatching,
                Stopping::StopReading,
                Stopping::LeaveToSystem,
            ]
        },
{
    reveal_with_fuel(steps_from, 7);
    let steps = steps_from(Stopping::GiveNamesBack, reader_left, 6);
    if reader_left {
        assert(steps =~= seq![
            Stopping::GiveNamesBack,
            Stopping::StopWatching,
            Stopping::StopReading,
            Stopping::EndSession,
            Stopping::CloseAdapter,
        ]);
    } else {
        assert(steps =~= seq![
            Stopping::GiveNamesBack,
            Stopping::StopWatching,
            Stopping::StopReading,
            Stopping::LeaveToSystem,
        ]);
    }
}

} // verus!
