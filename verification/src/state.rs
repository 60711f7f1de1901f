//! State shared between the parts of the core.
//!
//! Three things outlive any one tunnel and are read by more than one task: how much has gone
//! through, what the engine is doing, and which prefixes are routed. They live here so the engine,
//! the control interface and the display read one answer rather than each keeping its own.

use vstd::prelude::*;
use crate::address::IpAddr;
use crate::transport::connect_ip::Stages;
use crate::tun::asked::{applies, Answer, Asked};
use crate::tun::prefixes::{ascending, Prefix, Prefixes};
use crate::tun::{Change, RouteTable, Routes, TunError};

verus! {

/// Packets and bytes in one direction.
#[derive(Debug, Clone, Copy, PartialEq, Eq, Structural)]
pub struct Counter {
    packets: u64,
    bytes: u64,
}

/// A count that has counted as far as it can starts again.
pub open spec fn wrapped(count: int) -> u64 {
    (count % 0x1_0000_0000_0000_0000) as u64
}

/// Packets and bytes with one packet more.
pub open spec fn counted_packet(count: (u64, u64), bytes: int) -> (u64, u64) {
    (wrapped(count.0 + 1), wrapped(count.1 + bytes))
}

impl Counter {
    /// Packets and bytes so far.
    pub closed spec fn count(&self) -> (u64, u64) {
        (self.packets, self.bytes)
    }

    pub fn new() -> (counter: Self)
        ensures
            counter.count() == (0u64, 0u64),
    {
        Counter { packets: 0, bytes: 0 }
    }

    /// One more packet of so many bytes.
    pub fn record(&mut self, bytes: usize)
        ensures
            final(self).count() == counted_packet(old(self).count(), bytes as int),
    {
        self.packets = self.packets.wrapping_add(1);
        self.bytes = self.bytes.wrapping_add(bytes as u64);
    }

    /// Packets and bytes so far.
    pub fn read(&self) -> (count: (u64, u64))
        ensures
            count == self.count(),
    {
        (self.packets, self.bytes)
    }
}

impl Default for Counter {
    fn default() -> (counter: Self)
        ensures
            counter.count() == (0u64, 0u64),
    {
        Counter::new()
    }
}

/// What has gone through, in both directions. Carried across reconnects, because it counts what the
/// tunnel has done for the machine, not what one connection did.
#[derive(Debug, Clone, Copy, PartialEq, Eq, Structural)]
pub struct Counters {
    pub out: Counter,
    pub back: Counter,
}

impl Default for Counters {
    fn default() -> (counters: Self)
        ensures
            counters.out.count() == (0u64, 0u64),
            counters.back.count() == (0u64, 0u64),
    {
        Counters { out: Counter::new(), back: Counter::new() }
    }
}

/// The path under an HTTP/3 tunnel as QUIC last reported it, for the journal and the status.
///
/// `datagrams` and `read` together say where a packet lost on the way in went missing: a datagram
/// QUIC received and the tunnel never read was dropped by QUIC's receive buffer on this machine,
/// while `lost` counts this side's packets the path lost. Both are counted from when the tunnel came
/// up.
#[derive(Debug, Clone, Copy, PartialEq, Eq, Structural)]
pub struct PathReading {
    /// The round trip, in nanoseconds.
    pub rtt: u64,
    /// Congestion window, bytes.
    pub cwnd: u64,
    /// QUIC packets sent, and how many of those the path lost.
    pub sent: u64,
    pub lost: u64,
    /// Datagrams QUIC received, and packets the tunnel read out of it.
    pub datagrams: u64,
    pub read: u64,
}

/// What the engine is doing.
#[derive(Debug, PartialEq, Eq)]
pub enum Phase {
    /// Opening a tunnel. `attempt` counts from one and resets whenever one comes up.
    Connecting { attempt: usize },
    /// A tunnel is up and carrying packets.
    Up { stages: Stages },
    /// There is no tunnel, and another attempt is coming after so many milliseconds.
    ///
    /// `blocked` separates the one failure a supervisor must treat differently: the handshake was
    /// cut with no reply, which is something on the way refusing rather than anything here being
    /// wrong. Retrying that is not what fixes it.
    Lost { reason: String, retry_in: u64, blocked: bool },
}

/// One word for a phase.
pub open spec fn phase_name(phase: Phase) -> Seq<char> {
    match phase {
        Phase::Connecting { .. } => "connecting"@,
        Phase::Up { .. } => "up"@,
        Phase::Lost { .. } => "lost"@,
    }
}

impl Phase {
    /// One word for the state, for anything that has to name it rather than describe it.
    pub fn name(&self) -> (name: &'static str)
        ensures
            name@ == phase_name(*self),
    {
        match self {
            Phase::Connecting { .. } => "connecting",
            Phase::Up { .. } => "up",
            Phase::Lost { .. } => "lost",
        }
    }
}

/// What is known about whether the tunnel carries IPv6.
///
/// Three states rather than two, because "not asked yet" and "asked, and it does not" call for
/// different things: the first is a reason to ask, and the second is an answer to keep.
#[derive(Debug, Clone, Copy, PartialEq, Eq, Structural)]
pub enum Ipv6Support {
    Unknown,
    Carries,
    DoesNot,
}

/// How long a looked-up line address is trusted when the line has not been seen to change, in
/// milliseconds.
pub const LINE_SOURCE_TTL: u64 = 30_000;

/// One looked-up line address.
#[derive(Debug, Clone, Copy, PartialEq, Eq, Structural)]
pub struct LineSource {
    /// Which state of the line it was looked up in.
    pub line: u64,
    pub at: u64,
    pub from: Option<IpAddr>,
}

/// The latest line change: the interface it named, none where that is zero, and the kind of
/// notification it was.
#[derive(Debug, Clone, Copy, PartialEq, Eq, Structural)]
pub struct LineChange {
    pub interface: u64,
    pub kind: i32,
}

/// The core's shared state.
#[derive(Debug)]
pub struct Core {
    counters: Counters,
    phase: Phase,
    routes: Routes,
    /// What the application asked for. Held separately from what is installed, because what is
    /// installed is this set together with whatever DNS has learned, and neither may erase the other
    /// when it changes.
    asked: Prefixes,
    stop: bool,
    reconnects: u64,
    /// Bumped when the line under the tunnel changed: an interface came up, went away, or stopped
    /// being the one packets leave by.
    line: u64,
    last_change: LineChange,
    /// Whether the application wants IPv6 carried at all. Its decision, not this core's.
    wants_v6: bool,
    /// Whether the tunnel has been shown to carry it. This core's decision, and only ever made by
    /// measurement.
    v6: Ipv6Support,
    /// The line's address for each destination asked about.
    line_sources: Vec<(IpAddr, LineSource)>,
    /// The path under the tunnel that is up, when it is an HTTP/3 one.
    path: Option<PathReading>,
}

/// The route to one host.
pub open spec fn host(address: IpAddr) -> Prefix {
    (
        address,
        match address {
            IpAddr::V4(_) => 32,
            IpAddr::V6(_) => 128,
        },
    )
}

/// Everything that should be routed: what was asked for, plus a host route per leased address. A v6
/// prefix goes in only where the tunnel carries v6.
pub open spec fn routed(asked: Set<Prefix>, leased: Seq<IpAddr>, carries_v6: bool) -> Set<Prefix> {
    Set::new(
        |prefix: Prefix|
            (carries_v6 || prefix.0 is V4) && (asked.contains(prefix) || is_leased(leased, prefix)),
    )
}

/// Whether a prefix is the route to a leased address.
pub open spec fn is_leased(leased: Seq<IpAddr>, prefix: Prefix) -> bool {
    exists|k: int| 0 <= k < leased.len() && prefix == host(#[trigger] leased[k])
}

/// What is known of a destination's line address: the first entry for it.
pub open spec fn source_known(
    sources: Seq<(IpAddr, LineSource)>,
    destination: IpAddr,
) -> Option<LineSource>
    decreases sources.len(),
{
    if sources.len() == 0 {
        None
    } else if sources[0].0 == destination {
        Some(sources[0].1)
    } else {
        source_known(sources.drop_first(), destination)
    }
}

/// The core's shared state as plain values.
#[verifier::ext_equal]
pub ghost struct CoreState {
    pub counters: Counters,
    pub phase: Phase,
    /// The prefixes that are routed, and those the application asked for.
    pub rows: Set<Prefix>,
    pub asked: Set<Prefix>,
    pub stop: bool,
    pub reconnects: u64,
    pub line: u64,
    pub change: LineChange,
    pub wants_v6: bool,
    pub v6: Ipv6Support,
    pub sources: Map<IpAddr, LineSource>,
    pub path: Option<PathReading>,
}

impl CoreState {
    /// Whether a v6 prefix may be installed: the application has to want it and the tunnel has to
    /// carry it, and neither on its own is enough.
    pub open spec fn carries_v6(self) -> bool {
        self.wants_v6 && self.v6 == Ipv6Support::Carries
    }
}

/// What a core starts as: nothing routed and nothing known.
pub open spec fn starts_as(state: CoreState) -> bool {
    &&& state.counters.out.count() == (0u64, 0u64)
    &&& state.counters.back.count() == (0u64, 0u64)
    &&& state.phase == (Phase::Connecting { attempt: 1 })
    &&& state.rows == Set::<Prefix>::empty()
    &&& state.asked == Set::<Prefix>::empty()
    &&& !state.stop
    &&& state.reconnects == 0
    &&& state.line == 0
    &&& state.change == (LineChange { interface: 0, kind: 0 })
    &&& !state.wants_v6
    &&& state.v6 == Ipv6Support::Unknown
    &&& state.sources == Map::<IpAddr, LineSource>::empty()
    &&& state.path is None
}

/// Whether a looked-up line address may still be used: the line has not changed since, and it is not
/// old.
pub open spec fn is_current(known: LineSource, line: u64, now: u64) -> bool {
    known.line == line && (now < known.at || now - known.at < LINE_SOURCE_TTL)
}

/// What is known of every destination's line address.
pub open spec fn sources_known(sources: Seq<(IpAddr, LineSource)>) -> Map<IpAddr, LineSource> {
    Map::new(
        |destination: IpAddr| source_known(sources, destination) is Some,
        |destination: IpAddr| source_known(sources, destination)->0,
    )
}

impl View for Core {
    type V = CoreState;

    closed spec fn view(&self) -> CoreState {
        CoreState {
            counters: self.counters,
            phase: self.phase,
            rows: self.routes.rows(),
            asked: self.asked@,
            stop: self.stop,
            reconnects: self.reconnects,
            line: self.line,
            change: self.last_change,
            wants_v6: self.wants_v6,
            v6: self.v6,
            sources: sources_known(self.line_sources@),
            path: self.path,
        }
    }
}

impl Core {
    /// The sets are kept in order.
    pub closed spec fn wf(&self) -> bool {
        self.routes.wf() && self.asked.wf()
    }

    /// A core with nothing routed and nothing known.
    pub fn new() -> (core: Self)
        ensures
            core.wf(),
            starts_as(core@),
    {
        let core = Core {
            counters: Counters { out: Counter::new(), back: Counter::new() },
            phase: Phase::Connecting { attempt: 1 },
            routes: Routes::new(),
            asked: Prefixes::new(),
            stop: false,
            reconnects: 0,
            line: 0,
            last_change: LineChange { interface: 0, kind: 0 },
            wants_v6: false,
            v6: Ipv6Support::Unknown,
            line_sources: Vec::new(),
            path: None,
        };
        assert(core@.sources =~= Map::empty());
        core
    }

    /// What has gone through.
    pub fn counters(&self) -> (counters: Counters)
        ensures
            counters == self@.counters,
    {
        self.counters
    }

    /// A packet of so many bytes went out.
    pub fn count_out(&mut self, bytes: usize)
        ensures
            old(self).wf() ==> final(self).wf(),
            final(self)@ == (CoreState { counters: final(self)@.counters, ..old(self)@ }),
            final(self)@.counters.back == old(self)@.counters.back,
            final(self)@.counters.out.count() == counted_packet(
                old(self)@.counters.out.count(),
                bytes as int,
            ),
    {
        self.counters.out.record(bytes);
    }

    /// A packet of so many bytes came back.
    pub fn count_back(&mut self, bytes: usize)
        ensures
            old(self).wf() ==> final(self).wf(),
            final(self)@ == (CoreState { counters: final(self)@.counters, ..old(self)@ }),
            final(self)@.counters.out == old(self)@.counters.out,
            final(self)@.counters.back.count() == counted_packet(
                old(self)@.counters.back.count(),
                bytes as int,
            ),
    {
        self.counters.back.record(bytes);
    }

    /// What the engine is doing.
    pub fn phase(&self) -> (phase: &Phase)
        ensures
            *phase == self@.phase,
    {
        &self.phase
    }

    /// The engine is doing something else now.
    pub fn set_phase(&mut self, phase: Phase)
        ensures
            old(self).wf() ==> final(self).wf(),
            final(self)@ == (CoreState { phase, ..old(self)@ }),
    {
        self.phase = phase;
    }

    /// Record the latest reading of the path, or that there is none to read.
    pub fn set_path(&mut self, reading: Option<PathReading>)
        ensures
            old(self).wf() ==> final(self).wf(),
            final(self)@ == (CoreState { path: reading, ..old(self)@ }),
    {
        self.path = reading;
    }

    /// The latest reading of the path under an HTTP/3 tunnel, while one is up.
    pub fn path(&self) -> (reading: Option<PathReading>)
        ensures
            reading == self@.path,
    {
        self.path
    }

    /// Everything that should be routed right now.
    fn everything(&self, leased: &[IpAddr]) -> (all: Prefixes)
        requires
            self.wf(),
        ensures
            all.wf(),
            all@ == routed(self@.asked, leased@, self@.carries_v6()),
    {
        let carries_v6 = self.routes_ipv6();
        let mut all = Prefixes::new();
        let asked = self.asked.as_slice();
        let ghost want = self@.asked;
        let mut i: usize = 0;
        while i < asked.len()
            invariant
                i <= asked.len(),
                all.wf(),
                forall|p: Prefix| #[trigger]
                    all@.contains(p) <==> (carries_v6 || p.0 is V4) && asked@.take(
                        i as int,
                    ).contains(p),
            decreases asked.len() - i,
        {
            let prefix = asked[i];
            let ghost before = asked@.take(i as int);
            let ghost now = asked@.take(i + 1);
            assert(now =~= before.push(prefix));
            assert forall|p: Prefix| #[trigger] now.contains(p) <==> (before.contains(p) || p
                == prefix) by {
                if before.contains(p) {
                    let k = choose|k: int| 0 <= k < before.len() && before[k] == p;
                    assert(now[k] == p);
                }
                if p == prefix {
                    assert(now[i as int] == p);
                }
            }
            let v4 = match prefix.0 {
                IpAddr::V4(_) => true,
                IpAddr::V6(_) => false,
            };
            if carries_v6 || v4 {
                all.insert(prefix);
            }
            i += 1;
        }
        assert(asked@.take(i as int) =~= asked@);
        assert forall|p: Prefix| #[trigger] want.contains(p) == asked@.contains(p) by {
            assert(asked@.to_set().contains(p) == asked@.contains(p));
        }
        let ghost chosen = all@;
        let mut k: usize = 0;
        while k < leased.len()
            invariant
                k <= leased.len(),
                all.wf(),
                forall|p: Prefix| #[trigger]
                    all@.contains(p) <==> chosen.contains(p) || ((carries_v6 || p.0 is V4)
                        && is_leased(leased@.take(k as int), p)),
            decreases leased.len() - k,
        {
            let address = leased[k];
            let ghost before = leased@.take(k as int);
            let ghost now = leased@.take(k + 1);
            assert forall|p: Prefix| #[trigger] is_leased(now, p) <==> (is_leased(before, p) || p
                == host(address)) by {
                if is_leased(before, p) {
                    let j = choose|j: int| 0 <= j < before.len() && p == host(#[trigger] before[j]);
                    assert(now[j] == before[j]);
                }
                if p == host(address) {
                    assert(now[k as int] == address);
                }
                if is_leased(now, p) {
                    let j = choose|j: int| 0 <= j < now.len() && p == host(#[trigger] now[j]);
                    if j < k {
                        assert(before[j] == now[j]);
                    }
                }
            }
            match address {
                IpAddr::V4(_) => {
                    all.insert((address, 32));
                },
                IpAddr::V6(_) => {
                    if carries_v6 {
                        all.insert((address, 128));
                    }
                },
            }
            k += 1;
        }
        assert(leased@.take(k as int) =~= leased@);
        assert(all@ =~= routed(want, leased@, carries_v6));
        all
    }

    /// Replace what the application asks for, and make the routing table agree.
    ///
    /// This is only half of what ends up installed. The other half is what DNS has learned, and the
    /// two are unioned every time either changes, so a set arriving from the application never takes
    /// away an address a name is currently resolving to, and an expiring lease never takes away a
    /// prefix the application asked for.
    pub fn set_routes<T: RouteTable>(
        &mut self,
        wanted: Prefixes,
        leased: &[IpAddr],
        table: &mut Asked<T>,
    ) -> (change: Result<Change, TunError>)
        requires
            old(self).wf(),
            wanted.wf(),
        ensures
            final(self).wf(),
            final(self)@ == (CoreState {
                rows: final(self)@.rows,
                asked: wanted@,
                ..old(self)@
            }),
            applies(
                old(table).answers(),
                final(table).answers(),
                old(self)@.rows,
                final(self)@.rows,
                routed(wanted@, leased@, old(self)@.carries_v6()),
                change,
            ),
            installs(
                old(self)@.rows,
                final(self)@.rows,
                routed(wanted@, leased@, old(self)@.carries_v6()),
                change,
            ),
    {
        self.asked = wanted;
        self.install_union(leased, table)
    }

    /// Make the routing table agree with what is currently asked for and leased.
    pub fn refresh_routes<T: RouteTable>(&mut self, leased: &[IpAddr], table: &mut Asked<T>) -> (
    change: Result<Change, TunError>)
        requires
            old(self).wf(),
        ensures
            final(self).wf(),
            final(self)@ == (CoreState { rows: final(self)@.rows, ..old(self)@ }),
            applies(
                old(table).answers(),
                final(table).answers(),
                old(self)@.rows,
                final(self)@.rows,
                routed(old(self)@.asked, leased@, old(self)@.carries_v6()),
                change,
            ),
            installs(
                old(self)@.rows,
                final(self)@.rows,
                routed(old(self)@.asked, leased@, old(self)@.carries_v6()),
                change,
            ),
    {
        self.install_union(leased, table)
    }

    /// Install everything that should be routed.
    fn install_union<T: RouteTable>(&mut self, leased: &[IpAddr], table: &mut Asked<T>) -> (change:
        Result<Change, TunError>)
        requires
            old(self).wf(),
        ensures
            final(self).wf(),
            final(self)@ == (CoreState { rows: final(self)@.rows, ..old(self)@ }),
            applies(
                old(table).answers(),
                final(table).answers(),
                old(self)@.rows,
                final(self)@.rows,
                routed(old(self)@.asked, leased@, old(self)@.carries_v6()),
                change,
            ),
            installs(
                old(self)@.rows,
                final(self)@.rows,
                routed(old(self)@.asked, leased@, old(self)@.carries_v6()),
                change,
            ),
    {
        let all = self.everything(leased);
        self.routes.apply(table, &all)
    }

    /// The addresses that names resolve to changed: make the routing table agree, and say how many
    /// prefixes that put in.
    ///
    /// A failure is reported as none rather than raised: the resolver has already answered by the
    /// time this is called, and the routing table saying no is not a reason to withhold an answer
    /// that is correct.
    pub fn routes_changed<T: RouteTable>(&mut self, leased: &[IpAddr], table: &mut Asked<T>) -> (
    added: usize)
        requires
            old(self).wf(),
        ensures
            final(self).wf(),
            final(self)@ == (CoreState { rows: final(self)@.rows, ..old(self)@ }),
            agrees(
                old(table).answers(),
                final(table).answers(),
                old(self)@.rows,
                final(self)@.rows,
                routed(old(self)@.asked, leased@, old(self)@.carries_v6()),
                added,
            ),
    {
        match self.refresh_routes(leased, table) {
            Ok(change) => {
                let added = change.added.len();
                assert(counts_added(Ok(change), added));
                added
            },
            Err(problem) => {
                assert(counts_added(Err(problem), 0));
                0
            },
        }
    }

    /// Whether the application asked for IPv6 to be carried.
    pub fn set_wants_ipv6(&mut self, wanted: bool)
        ensures
            old(self).wf() ==> final(self).wf(),
            final(self)@ == (CoreState { wants_v6: wanted, ..old(self)@ }),
    {
        self.wants_v6 = wanted;
    }

    /// What is known about the tunnel and IPv6.
    pub fn ipv6_support(&self) -> (support: Ipv6Support)
        ensures
            support == self@.v6,
    {
        self.v6
    }

    /// Record what a measurement found, and make the routing table agree with it. Nothing is asked
    /// of the table where that is what was known; says whether it is news.
    pub fn set_carries_ipv6<T: RouteTable>(
        &mut self,
        carries: bool,
        leased: &[IpAddr],
        table: &mut Asked<T>,
    ) -> (news: bool)
        requires
            old(self).wf(),
        ensures
            final(self).wf(),
            final(self)@ == (CoreState {
                v6: measured(carries),
                rows: final(self)@.rows,
                ..old(self)@
            }),
            news == (measured(carries) != old(self)@.v6),
            !news ==> final(self)@.rows == old(self)@.rows && final(table).answers() == old(
                table,
            ).answers(),
            news ==> exists|added: usize| #[trigger]
                agrees(
                    old(table).answers(),
                    final(table).answers(),
                    old(self)@.rows,
                    final(self)@.rows,
                    routed(old(self)@.asked, leased@, final(self)@.carries_v6()),
                    added,
                ),
    {
        let state = if carries {
            Ipv6Support::Carries
        } else {
            Ipv6Support::DoesNot
        };
        if self.v6 == state {
            return false;
        }
        self.v6 = state;
        let added = self.routes_changed(leased, table);
        assert(agrees(
            old(table).answers(),
            table.answers(),
            old(self)@.rows,
            self@.rows,
            routed(old(self)@.asked, leased@, self@.carries_v6()),
            added,
        ));
        true
    }

    /// Whether it is worth measuring again on this connect.
    ///
    /// Asymmetric on purpose. A stale "it carries v6" is the dangerous answer: it routes a family
    /// into a tunnel that black-holes it. A stale "it does not" merely leaves v6 on the line. So a
    /// yes is re-checked on every connect, and a no is kept.
    pub fn should_probe_ipv6(&self) -> (probe: bool)
        ensures
            probe == (self@.v6 != Ipv6Support::DoesNot),
    {
        self.v6 != Ipv6Support::DoesNot
    }

    /// Whether a v6 prefix may be installed.
    fn routes_ipv6(&self) -> (may: bool)
        ensures
            may == self@.carries_v6(),
    {
        self.wants_v6 && self.v6 == Ipv6Support::Carries
    }

    /// What is routed into the tunnel right now.
    pub fn routes(&self) -> (routes: &Prefixes)
        requires
            self.wf(),
        ensures
            routes.wf(),
            routes@ == self@.rows,
    {
        self.routes.installed()
    }

    /// Throw away the tunnel that is up and open a fresh one.
    pub fn reconnect(&mut self)
        ensures
            old(self).wf() ==> final(self).wf(),
            final(self)@ == (CoreState {
                reconnects: wrapped(old(self)@.reconnects + 1),
                ..old(self)@
            }),
    {
        self.reconnects = self.reconnects.wrapping_add(1);
    }

    /// Say that the line under the tunnel changed.
    ///
    /// Deliberately not a reconnect. A tunnel riding an interface that did not move is still a
    /// working tunnel. What this asks for is the question to be put now, is the endpoint still
    /// answering, instead of at the end of the current interval.
    pub fn line_changed(&mut self, interface: u64, kind: i32)
        ensures
            old(self).wf() ==> final(self).wf(),
            final(self)@ == (CoreState {
                line: wrapped(old(self)@.line + 1),
                change: LineChange { interface, kind },
                ..old(self)@
            }),
    {
        self.last_change = LineChange { interface, kind };
        self.line = self.line.wrapping_add(1);
    }

    /// Ask the core to stop. A latch: once asked, it stays asked.
    pub fn stop(&mut self)
        ensures
            old(self).wf() ==> final(self).wf(),
            final(self)@ == (CoreState { stop: true, ..old(self)@ }),
    {
        self.stop = true;
    }

    /// Whether the core was asked to stop.
    pub fn stopped(&self) -> (stopped: bool)
        ensures
            stopped == self@.stop,
    {
        self.stop
    }

    /// The latest line change.
    pub fn line_change(&self) -> (change: LineChange)
        ensures
            change == self@.change,
    {
        self.last_change
    }

    /// Where the entry for a destination stands.
    fn find_source(&self, destination: IpAddr) -> (found: Option<usize>)
        ensures
            match found {
                Some(at) => {
                    &&& at < self.line_sources@.len()
                    &&& self.line_sources@[at as int].0 == destination
                    &&& source_known(self.line_sources@, destination) == Some(
                        self.line_sources@[at as int].1,
                    )
                    &&& forall|k: int|
                        0 <= k < at ==> (#[trigger] self.line_sources@[k]).0 != destination
                },
                None => {
                    &&& source_known(self.line_sources@, destination) is None
                    &&& forall|k: int|
                        0 <= k < self.line_sources@.len() ==> (#[trigger] self.line_sources@[k]).0
                            != destination
                },
            },
    {
        let mut at: usize = 0;
        let ghost all = self.line_sources@;
        assert(all.skip(0) =~= all);
        while at < self.line_sources.len()
            invariant
                all == self.line_sources@,
                at <= all.len(),
                forall|k: int| 0 <= k < at ==> (#[trigger] all[k]).0 != destination,
                source_known(all, destination) == source_known(all.skip(at as int), destination),
            decreases all.len() - at,
        {
            assert(all.skip(at as int).drop_first() =~= all.skip(at + 1));
            if self.line_sources[at].0 == destination {
                return Some(at);
            }
            at += 1;
        }
        None
    }

    /// The line's address for a destination, where it was looked up for this line and lately enough:
    /// the lookup walks a routing table, and it is asked for on every query a direct resolver
    /// answers.
    pub fn line_source(&self, destination: IpAddr, now: u64) -> (source: Option<Option<IpAddr>>)
        ensures
            source == if self@.sources.contains_key(destination) && is_current(
                self@.sources[destination],
                self@.line,
                now,
            ) {
                Some(self@.sources[destination].from)
            } else {
                None
            },
    {
        match self.find_source(destination) {
            None => None,
            Some(at) => {
                let known = self.line_sources[at].1;
                if known.line == self.line && (now < known.at || now - known.at
                    < LINE_SOURCE_TTL) {
                    Some(known.from)
                } else {
                    None
                }
            },
        }
    }

    /// The line's address for a destination was looked up. Says whether it is another than was
    /// known.
    pub fn line_source_found(&mut self, destination: IpAddr, from: Option<IpAddr>, now: u64) -> (news:
        bool)
        ensures
            old(self).wf() ==> final(self).wf(),
            final(self)@ == (CoreState {
                sources: old(self)@.sources.insert(
                    destination,
                    LineSource { line: old(self)@.line, at: now, from },
                ),
                ..old(self)@
            }),
            news == !(old(self)@.sources.contains_key(destination)
                && old(self)@.sources[destination].from == from),
    {
        let found = LineSource { line: self.line, at: now, from };
        let ghost before = self.line_sources@;
        match self.find_source(destination) {
            Some(at) => {
                let known = self.line_sources[at].1;
                let news = match (known.from, from) {
                    (Some(known), Some(now)) => known != now,
                    (None, None) => false,
                    _ => true,
                };
                self.line_sources[at] = (destination, found);
                proof {
                    lemma_source_updated(before, at as int, destination, found);
                    assert(self@.sources =~= sources_known(before).insert(destination, found));
                }
                news
            },
            None => {
                self.line_sources.push((destination, found));
                proof {
                    lemma_source_added(before, destination, found);
                    assert(self@.sources =~= sources_known(before).insert(destination, found));
                }
                true
            },
        }
    }
}

impl Default for Core {
    fn default() -> (core: Self)
        ensures
            core.wf(),
            starts_as(core@),
    {
        Core::new()
    }
}

proof fn lemma_source_updated(
    sources: Seq<(IpAddr, LineSource)>,
    at: int,
    destination: IpAddr,
    found: LineSource,
)
    requires
        0 <= at < sources.len(),
        sources[at].0 == destination,
        forall|k: int| 0 <= k < at ==> (#[trigger] sources[k]).0 != destination,
    ensures
        ({
            let now = sources.update(at, (destination, found));
            &&& source_known(now, destination) == Some(found)
            &&& forall|other: IpAddr| #[trigger]
                source_known(now, other) == source_known(sources, other) || other == destination
        }),
    decreases at,
{
    let now = sources.update(at, (destination, found));
    if at == 0 {
        assert(now.drop_first() =~= sources.drop_first());
    } else {
        let rest = sources.drop_first();
        assert(sources[0].0 != destination);
        assert(forall|k: int| 0 <= k < at - 1 ==> rest[k] == #[trigger] sources[k + 1]);
        lemma_source_updated(rest, at - 1, destination, found);
        assert(now.drop_first() =~= rest.update(at - 1, (destination, found)));
        assert forall|other: IpAddr| #[trigger] source_known(now, other) == source_known(
            sources,
            other,
        ) || other == destination by {
            assert(source_known(now.drop_first(), other) == source_known(rest, other) || other
                == destination);
        }
    }
}

proof fn lemma_source_added(
    sources: Seq<(IpAddr, LineSource)>,
    destination: IpAddr,
    found: LineSource,
)
    requires
        forall|k: int| 0 <= k < sources.len() ==> (#[trigger] sources[k]).0 != destination,
    ensures
        ({
            let now = sources.push((destination, found));
            &&& source_known(now, destination) == Some(found)
            &&& forall|other: IpAddr| #[trigger]
                source_known(now, other) == source_known(sources, other) || other == destination
        }),
    decreases sources.len(),
{
    let now = sources.push((destination, found));
    if sources.len() == 0 {
        assert(now.drop_first() =~= sources);
    } else {
        let rest = sources.drop_first();
        assert(sources[0].0 != destination);
        assert(forall|k: int| 0 <= k < rest.len() ==> rest[k] == #[trigger] sources[k + 1]);
        lemma_source_added(rest, destination, found);
        assert(now.drop_first() =~= rest.push((destination, found)));
        assert forall|other: IpAddr| #[trigger] source_known(now, other) == source_known(
            sources,
            other,
        ) || other == destination by {
            assert(source_known(now.drop_first(), other) == source_known(rest, other) || other
                == destination);
        }
    }
}

/// What a measurement found.
pub open spec fn measured(carries: bool) -> Ipv6Support {
    if carries {
        Ipv6Support::Carries
    } else {
        Ipv6Support::DoesNot
    }
}

/// How many prefixes a change put in; none where it was refused.
pub open spec fn counts_added(change: Result<Change, TunError>, added: usize) -> bool {
    added == match change {
        Ok(change) => change.added@.len(),
        Err(_) => 0,
    }
}

/// Whether a table was made to agree with a wanted set, putting in so many prefixes.
pub open spec fn agrees(
    before: Seq<Answer>,
    after: Seq<Answer>,
    rows: Set<Prefix>,
    now: Set<Prefix>,
    wanted: Set<Prefix>,
    added: usize,
) -> bool {
    exists|change: Result<Change, TunError>| #[trigger]
        counts_added(change, added) && applies(before, after, rows, now, wanted, change)
            && installs(rows, now, wanted, change)
}

/// What making a table agree with a set comes to: the set is installed and the change says what
/// moved, or something was refused and nothing that both held is gone, nor anything there that
/// neither held.
pub open spec fn installs(
    before: Set<Prefix>,
    after: Set<Prefix>,
    wanted: Set<Prefix>,
    change: Result<Change, TunError>,
) -> bool {
    match change {
        Ok(change) => {
            &&& after == wanted
            &&& ascending(change.removed@)
            &&& change.removed@.to_set() == before.difference(wanted)
            &&& ascending(change.added@)
            &&& change.added@.to_set() == wanted.difference(before)
        },
        Err(_) => {
            &&& after != wanted
            &&& before.intersect(wanted).subset_of(after)
            &&& after.subset_of(before.union(wanted))
        },
    }
}

/// Neither half of what is routed erases the other: a prefix asked for stays whatever is leased, a
/// leased address stays whatever is asked for, and nothing else is routed.
pub proof fn law_neither_half_erases_the_other(
    asked: Set<Prefix>,
    leased: Seq<IpAddr>,
    carries_v6: bool,
    prefix: Prefix,
)
    ensures
        asked.contains(prefix) && (carries_v6 || prefix.0 is V4) ==> routed(
            asked,
            leased,
            carries_v6,
        ).contains(prefix),
        is_leased(leased, prefix) && (carries_v6 || prefix.0 is V4) ==> routed(
            asked,
            leased,
            carries_v6,
        ).contains(prefix),
        routed(asked, leased, carries_v6).contains(prefix) ==> asked.contains(prefix) || is_leased(
            leased,
            prefix,
        ),
{
}

/// Nothing of the second family is routed into a tunnel that was not measured carrying it.
pub proof fn law_no_v6_is_routed_unless_it_is_carried(
    asked: Set<Prefix>,
    leased: Seq<IpAddr>,
    prefix: Prefix,
)
    ensures
        routed(asked, leased, false).contains(prefix) ==> prefix.0 is V4,
{
}

/// A leased address is routed alone: a prefix of all its 32 or 128 bits, and no other address of its
/// network. An IPv4 address is always routed, and an IPv6 one exactly where the tunnel carries it.
pub proof fn law_a_leased_address_is_routed_alone(
    leased: Seq<IpAddr>,
    carries_v6: bool,
    prefix: Prefix,
    k: int,
)
    requires
        0 <= k < leased.len(),
    ensures
        ({
            let rows = routed(Set::empty(), leased, carries_v6);
            &&& leased[k] is V4 ==> rows.contains((leased[k], 32u8))
            &&& leased[k] is V6 ==> (rows.contains((leased[k], 128u8)) <==> carries_v6)
            &&& rows.contains(prefix) ==> leased.contains(prefix.0) && prefix.1 == (match prefix.0 {
                IpAddr::V4(_) => 32u8,
                IpAddr::V6(_) => 128u8,
            })
        }),
{
    assert(host(leased[k]).0 == leased[k]);
    assert(is_leased(leased, host(leased[k])));
}

/// IPv6 is carried where it is wanted and was measured, and not where either is missing.
pub proof fn law_ipv6_is_carried_where_wanted_and_measured(state: CoreState)
    ensures
        state.carries_v6() ==> state.wants_v6 && state.v6 is Carries,
        state.wants_v6 && state.v6 is Carries ==> state.carries_v6(),
        measured(true) is Carries,
        measured(false) is DoesNot,
{
}

/// A line address that was looked up is used for half a minute and not longer, and not once the line
/// has changed.
pub proof fn law_a_line_address_is_good_for_half_a_minute(known: LineSource, line: u64, now: u64)
    ensures
        is_current(known, line, now) <==> known.line == line && now < known.at + 30_000,
{
}

/// What is known of a destination is what was noted of it and not of another, and a note put in front
/// is the one that counts.
pub proof fn law_a_note_in_front_counts(
    sources: Seq<(IpAddr, LineSource)>,
    destination: IpAddr,
    other: IpAddr,
    noted: LineSource,
)
    ensures
        source_known(Seq::empty(), destination) is None,
        source_known(seq![(destination, noted)] + sources, destination) == Some(noted),
        other != destination ==> source_known(seq![(other, noted)] + sources, destination)
            == source_known(sources, destination),
{
    assert((seq![(destination, noted)] + sources).drop_first() =~= sources);
    assert((seq![(other, noted)] + sources).drop_first() =~= sources);
}

} // verus!
