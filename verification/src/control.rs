//! What the application asks of the core, and what it is told.
//!
//! One request and one reply at a time, over a pipe that only administrators and the system may
//! open. Requests and replies are small.

use vstd::prelude::*;
use vstd::string::StringExecFns;
use crate::address::shown::{show, shown};
use crate::address::IpAddr;
use crate::dns::lease::{held_addresses, LeaseState};
use crate::dns::policy::{named, normal_lines, tunnelled, PolicyInput};
use crate::dns::server::{
    install_refused, install_text, not_installed, InstallError, InstallReport, Resolver, Stats,
};
use crate::dns::upstream::{all_prepared, under_ids};
use crate::log;
use crate::log::{level_read, level_word, Journal, Level};
use crate::names::{name_error_text, NameError};
use crate::options::{prefixes_read, read_prefixes};
use crate::state::{
    agrees, installs, phase_name, routed, wrapped, Core, CoreState, Ipv6Support, PathReading, Phase,
};
use crate::text::{between, decimal, digits, joined, lower, lowered, texts, trimmed};
use crate::transport::carrier::carrier_name;
use crate::transport::connect_ip::{plain_steps, stage_carrier, stage_steps, Stages};
use crate::transport::handshake::{is_dns_name, set_fronted_name, Presented};
use crate::tun::asked::{applies, Answer, Asked};
use crate::tun::prefixes::{ascending, Prefix};
use crate::tun::{tun_text, Change, RouteTable, TunError};

verus! {

/// Where the application looks for the core.
pub const PIPE_NAME: &'static str = "\\\\.\\pipe\\masqr";

/// Who may open the pipe: the built-in Administrators group and the system, and nobody else.
///
/// `P` makes it protected, so nothing is inherited into it: without that, a permissive default on
/// the pipe namespace would be added to what is written here rather than replaced by it.
pub const PIPE_ACCESS: &'static str = "D:P(A;;GA;;;BA)(A;;GA;;;SY)";

/// What the application asks.
#[derive(Debug)]
pub enum Request {
    /// Everything the application shows about the tunnel.
    Status,
    /// Make the routed set exactly this. Prefixes are `address` or `address/length`.
    ///
    /// `ipv6` says whether the application wants the tunnel to carry IPv6 at all. Whether it
    /// actually does is measured, not declared, and both have to agree before a v6 prefix is
    /// installed.
    Routes { set: Vec<String>, ipv6: bool },
    /// Replace the DNS policy: which upstream answers a name, and whose answers become routing.
    ///
    /// Replaced whole and never merged, so the core is never holding half of an old policy.
    Dns { policy: PolicyInput },
    /// How much the core says about what it is doing. Takes effect on the next line.
    Log { level: String },
    /// Take the machine's names over, or give them back.
    Names { claim: bool },
    /// Change the name for the `fronted` strategy.
    Sni { name: String },
    /// Throw away the tunnel that is up and open a fresh one. Routing does not move.
    Reconnect,
    /// Put the adapter away and exit.
    Stop,
}

/// What the application is told.
#[derive(Debug, PartialEq, Eq)]
pub enum Reply {
    Done,
    /// Refused, in these words.
    Refused(String),
    /// The routed set is what was asked for, and this is what moved.
    Routes { added: Vec<String>, removed: Vec<String> },
    Policy(InstallReport),
    /// This much is said from here on. It moved, or was that already.
    Level { level: String, moved: bool },
    /// The machine's names are given back, and so many rules were removed.
    Released { removed: usize },
    /// The machine's names are taken over.
    Claimed,
    Status(Status),
}

/// What answering a request takes.
#[derive(Debug, PartialEq, Eq)]
pub enum Step {
    /// Tell this.
    Tell(Reply),
    /// Have the machine forget the answers it has, and tell this.
    ///
    /// Or the new policy decides nothing about any name that was asked before it arrived: the answer
    /// is cached, nobody asks again, and the address in it is one this core never handed out and so
    /// never routed.
    ForgetAndTell(Reply),
    /// Give the machine's names back, and tell how many rules were removed.
    Release,
    /// Point the machine's names at this address, and tell what that came to.
    TakeOver(IpAddr),
}

/// What is told about the path under an HTTP/3 tunnel.
#[derive(Debug, Clone, Copy, PartialEq, Eq, Structural)]
pub struct PathStatus {
    pub rtt_ms: u64,
    pub cwnd: u64,
    pub sent: u64,
    pub lost: u64,
    pub datagrams: u64,
    pub read: u64,
}

/// What is told about the tunnel, besides its state.
#[derive(Debug, PartialEq, Eq)]
pub enum Detail {
    Connecting { attempt: usize },
    /// The carrier, each stage of bringing it up with its time in milliseconds, and the path.
    Up { transport: &'static str, stages: Vec<(String, u64)>, path: Option<PathStatus> },
    Lost { reason: String, retry_in_ms: u64, blocked: bool },
}

/// Everything the application shows about the core.
#[derive(Debug, PartialEq, Eq)]
pub struct Status {
    pub state: &'static str,
    pub detail: Detail,
    pub routes: Vec<String>,
    /// Packets and bytes.
    pub out: (u64, u64),
    pub back: (u64, u64),
    pub level: String,
    pub ipv6: &'static str,
    pub dns: Stats,
    /// How many addresses are routed because a name resolved to them, as distinct from the prefixes
    /// the application asked for.
    pub leases: usize,
}

/// A prefix as it is written.
pub open spec fn prefix_shown(prefix: Prefix) -> Seq<char> {
    shown(prefix.0) + "/"@ + digits(prefix.1 as nat)
}

/// Prefixes as they are written.
pub open spec fn prefixes_shown(prefixes: Seq<Prefix>) -> Seq<Seq<char>> {
    prefixes.map_values(|prefix: Prefix| prefix_shown(prefix))
}

/// Prefixes as they are written.
pub fn written(prefixes: &[Prefix]) -> (all: Vec<String>)
    ensures
        texts(all@) == prefixes_shown(prefixes@),
{
    let mut all: Vec<String> = Vec::new();
    let mut at: usize = 0;
    while at < prefixes.len()
        invariant
            at <= prefixes@.len(),
            texts(all@) == prefixes_shown(prefixes@.take(at as int)),
        decreases prefixes@.len() - at,
    {
        let ghost before = texts(all@);
        let address = show(prefixes[at].0);
        let length = decimal(prefixes[at].1 as u128);
        all.push(between(address.as_str(), "/", length.as_str()));
        proof {
            assert(texts(all@) =~= before.push(prefix_shown(prefixes@[at as int])));
            assert(prefixes_shown(prefixes@.take(at + 1)) =~= prefixes_shown(
                prefixes@.take(at as int),
            ).push(prefix_shown(prefixes@[at as int])));
        }
        at += 1;
    }
    assert(prefixes@.take(at as int) =~= prefixes@);
    all
}

/// The stages as they are told: each under its name, in whole milliseconds.
pub open spec fn stages_told(stages: Stages) -> Seq<(Seq<char>, u64)> {
    stage_steps(stages).map_values(
        |step: (Seq<char>, u128)| (step.0 + "_ms"@, (step.1 % 0x1_0000_0000_0000_0000) as u64),
    )
}

/// Named times as plain values.
pub open spec fn plain_times(times: Seq<(String, u64)>) -> Seq<(Seq<char>, u64)> {
    times.map_values(|time: (String, u64)| (time.0@, time.1))
}

/// The stages as they are told.
fn tell_stages(stages: &Stages) -> (times: Vec<(String, u64)>)
    ensures
        plain_times(times@) == stages_told(*stages),
{
    let steps = stages.steps();
    let ghost plain = plain_steps(steps@);
    let mut times: Vec<(String, u64)> = Vec::new();
    let mut at: usize = 0;
    while at < steps.len()
        invariant
            at <= steps@.len(),
            plain == plain_steps(steps@),
            plain == stage_steps(*stages),
            plain_times(times@) == stages_told(*stages).take(at as int),
        decreases steps@.len() - at,
    {
        let ghost before = plain_times(times@);
        let (step, ms) = steps[at];
        assert(plain[at as int] == (step@, ms));
        times.push((joined(step, "_ms"), (ms % 0x1_0000_0000_0000_0000) as u64));
        proof {
            let one = (step@ + "_ms"@, (ms % 0x1_0000_0000_0000_0000) as u64);
            assert(plain_times(times@) =~= before.push(one));
            assert(stages_told(*stages)[at as int] == one);
            assert(stages_told(*stages).take(at + 1) =~= stages_told(*stages).take(
                at as int,
            ).push(one));
        }
        at += 1;
    }
    assert(stages_told(*stages).take(at as int) =~= stages_told(*stages));
    times
}

/// A reading of the path as it is told.
pub open spec fn path_told(reading: PathReading) -> PathStatus {
    PathStatus {
        rtt_ms: reading.rtt / 1_000_000,
        cwnd: reading.cwnd,
        sent: reading.sent,
        lost: reading.lost,
        datagrams: reading.datagrams,
        read: reading.read,
    }
}

/// Whether this is what is told about a phase, with the latest reading of the path.
pub open spec fn tells_phase(detail: Detail, phase: Phase, path: Option<PathReading>) -> bool {
    match phase {
        Phase::Connecting { attempt } => detail == (Detail::Connecting { attempt }),
        Phase::Up { stages } => match detail {
            Detail::Up { transport, stages: times, path: told } => {
                &&& transport@ == carrier_name(stage_carrier(stages))
                &&& plain_times(times@) == stages_told(stages)
                &&& told == match path {
                    Some(reading) => Some(path_told(reading)),
                    None => None,
                }
            },
            _ => false,
        },
        Phase::Lost { reason, retry_in, blocked } => match detail {
            Detail::Lost { reason: why, retry_in_ms, blocked: refused } => why@ == reason@
                && retry_in_ms == retry_in && refused == blocked,
            _ => false,
        },
    }
}

/// What is told about IPv6.
pub open spec fn ipv6_told(support: Ipv6Support) -> Seq<char> {
    match support {
        Ipv6Support::Carries => "carried"@,
        Ipv6Support::DoesNot => "not carried"@,
        Ipv6Support::Unknown => "not measured yet"@,
    }
}

/// Whether this is everything there is to tell.
pub open spec fn tells(
    status: Status,
    core: CoreState,
    dns: Stats,
    held: Seq<LeaseState>,
    level: Level,
) -> bool {
    &&& status.state@ == phase_name(core.phase)
    &&& tells_phase(status.detail, core.phase, core.path)
    &&& exists|rows: Seq<Prefix>|
        #![trigger ascending(rows)]
        ascending(rows) && rows.to_set() == core.rows && texts(status.routes@) == prefixes_shown(
            rows,
        )
    &&& status.out == core.counters.out.count()
    &&& status.back == core.counters.back.count()
    &&& status.level@ == lower(level_word(level))
    &&& status.ipv6@ == ipv6_told(core.v6)
    &&& status.dns == dns
    &&& status.leases == held.len()
}

/// Everything the application shows about the core.
pub fn status(core: &Core, resolver: &Resolver, journal: &Journal) -> (status: Status)
    requires
        core.wf(),
        resolver.wf(),
        journal.wf(),
    ensures
        tells(status, core@, resolver.counts(), resolver.held(), journal.at()),
{
    let phase = core.phase();
    let detail = match phase {
        Phase::Connecting { attempt } => Detail::Connecting { attempt: *attempt },
        Phase::Up { stages } => Detail::Up {
            transport: stages.carrier().name(),
            stages: tell_stages(stages),
            path: match core.path() {
                Some(path) => Some(
                    PathStatus {
                        rtt_ms: path.rtt / 1_000_000,
                        cwnd: path.cwnd,
                        sent: path.sent,
                        lost: path.lost,
                        datagrams: path.datagrams,
                        read: path.read,
                    },
                ),
                None => None,
            },
        },
        Phase::Lost { reason, retry_in, blocked } => Detail::Lost {
            reason: reason.clone(),
            retry_in_ms: *retry_in,
            blocked: *blocked,
        },
    };
    let counters = core.counters();
    let rows = core.routes().as_slice();
    assert(ascending(rows@));
    Status {
        state: phase.name(),
        detail,
        routes: written(rows),
        out: counters.out.read(),
        back: counters.back.read(),
        level: lowered(log::level(journal).word()),
        ipv6: match core.ipv6_support() {
            Ipv6Support::Carries => "carried",
            Ipv6Support::DoesNot => "not carried",
            Ipv6Support::Unknown => "not measured yet",
        },
        dns: resolver.stats(),
        leases: resolver.leases().len(),
    }
}

/// Whether a step is to refuse, in these words.
pub open spec fn refuses(step: Step, words: Seq<char>) -> bool {
    step matches Step::Tell(Reply::Refused(said)) && said@ == words
}

/// Whether everything about a resolver is as it was.
pub open spec fn resolver_kept(before: &Resolver, after: &Resolver) -> bool {
    after.keeps(before) && after.counts() == before.counts()
}

/// Whether what is presented is as it was.
pub open spec fn presented_kept(before: &Presented, after: &Presented) -> bool {
    after.selected() == before.selected() && after.fronted() == before.fronted()
}

/// Whether this step is what is told about a change of the routed set.
pub open spec fn tells_change(change: Result<Change, TunError>, step: Step) -> bool {
    match change {
        Ok(change) => match step {
            Step::Tell(Reply::Routes { added, removed }) => texts(added@) == prefixes_shown(
                change.added@,
            ) && texts(removed@) == prefixes_shown(change.removed@),
            _ => false,
        },
        Err(problem) => refuses(step, tun_text(problem)),
    }
}

/// Whether asking for a routed set comes to this step and these rows.
pub open spec fn answers_routes(
    before: Seq<Answer>,
    after: Seq<Answer>,
    rows: Set<Prefix>,
    now: Set<Prefix>,
    wanted: Set<Prefix>,
    step: Step,
) -> bool {
    exists|change: Result<Change, TunError>| #[trigger]
        tells_change(change, step) && applies(before, after, rows, now, wanted, change)
            && installs(rows, now, wanted, change)
}

/// Whether asking for a policy comes to this step and this resolver.
pub open spec fn answers_policy(
    before: &Resolver,
    after: &Resolver,
    input: PolicyInput,
    step: Step,
) -> bool {
    &&& after.held() == before.held()
    &&& after.start() == before.start()
    &&& after.counts() == before.counts()
    &&& after.wanted() == before.wanted()
    &&& after.at() == before.at()
    &&& after.asking() == before.asking()
    &&& match step {
        Step::ForgetAndTell(Reply::Policy(report)) => {
            &&& not_installed(input, before.at()) is None
            &&& after.policy() matches Some(policy) && policy.wf() && policy.declared()
                == input.resolvers@ && policy.lines() == normal_lines(input.rules@)
            &&& all_prepared(input.resolvers@) matches Ok(ready) && after.ready() == under_ids(
                input.resolvers@,
                ready,
            )
            &&& report.rules == input.rules@.len()
            &&& report.resolvers == named(normal_lines(input.rules@)).len()
            &&& report.tunnelled == tunnelled(input.resolvers@).len()
        },
        Step::Tell(Reply::Refused(said)) => {
            &&& exists|problem: InstallError| #[trigger]
                install_refused(input, before.at(), problem) && said@ == install_text(problem)
            &&& after.policy() == before.policy()
            &&& after.ready() == before.ready()
        },
        _ => false,
    }
}

/// What is said about a word that is no level.
pub open spec fn no_level(level: Seq<char>) -> Seq<char> {
    "`"@ + level + "` is not a level; it is one of error, warn, notice, info, debug"@
}

/// Answer a request, as far as the core can by itself.
///
/// Everything a request does not speak of stays as it is.
pub fn answer<T: RouteTable>(
    request: Request,
    core: &mut Core,
    resolver: &mut Resolver,
    journal: &mut Journal,
    presented: &mut Presented,
    table: &mut Asked<T>,
) -> (step: Step)
    requires
        old(core).wf(),
        old(resolver).wf(),
        old(journal).wf(),
    ensures
        final(core).wf(),
        final(resolver).wf(),
        final(journal).wf(),
        !(request is Routes || request is Dns || request is Reconnect || request is Stop)
            ==> final(core)@ == old(core)@,
        !(request is Routes || request is Dns) ==> final(table).answers() == old(table).answers(),
        !(request is Dns) ==> resolver_kept(old(resolver), final(resolver)),
        !(request is Log) ==> final(journal).at() == old(journal).at(),
        !(request is Sni) ==> presented_kept(old(presented), final(presented)),
        match request {
            Request::Status => step matches Step::Tell(Reply::Status(status)) && tells(
                status,
                old(core)@,
                old(resolver).counts(),
                old(resolver).held(),
                old(journal).at(),
            ),
            Request::Routes { set, ipv6 } => match prefixes_read(texts(set@)) {
                Err(complaint) => final(core)@ == old(core)@ && final(table).answers() == old(
                    table,
                ).answers() && refuses(step, complaint),
                Ok(wanted) => {
                    &&& final(core)@ == (CoreState {
                        wants_v6: ipv6,
                        asked: wanted,
                        rows: final(core)@.rows,
                        ..old(core)@
                    })
                    &&& answers_routes(
                        old(table).answers(),
                        final(table).answers(),
                        old(core)@.rows,
                        final(core)@.rows,
                        routed(
                            wanted,
                            held_addresses(old(resolver).held()),
                            final(core)@.carries_v6(),
                        ),
                        step,
                    )
                },
            },
            Request::Dns { policy } => {
                &&& answers_policy(old(resolver), final(resolver), policy, step)
                &&& final(core)@ == (CoreState { rows: final(core)@.rows, ..old(core)@ })
                &&& if step is ForgetAndTell {
                    exists|added: usize| #[trigger]
                        agrees(
                            old(table).answers(),
                            final(table).answers(),
                            old(core)@.rows,
                            final(core)@.rows,
                            routed(
                                old(core)@.asked,
                                held_addresses(old(resolver).held()),
                                old(core)@.carries_v6(),
                            ),
                            added,
                        )
                } else {
                    final(core)@.rows == old(core)@.rows && final(table).answers() == old(
                        table,
                    ).answers()
                }
            },
            Request::Log { level } => match level_read(lower(trimmed(level@))) {
                None => final(journal).at() == old(journal).at() && refuses(
                    step,
                    no_level(level@),
                ),
                Some(asked) => final(journal).at() == asked && (step matches Step::Tell(
                    Reply::Level { level, moved },
                ) && level@ == lower(level_word(asked)) && moved == (asked != old(
                    journal,
                ).at())),
            },
            Request::Names { claim } => if !claim {
                step is Release
            } else {
                match old(resolver).at() {
                    // A core that is not answering names cannot be the machine's resolver, and
                    // claiming otherwise leaves it pointed at a closed socket.
                    None => refuses(step, "this core is not answering names"@),
                    Some(at) => step == Step::TakeOver(at.ip),
                }
            },
            Request::Sni { name } => final(presented).selected() == old(presented).selected()
                && if is_dns_name(name@) {
                final(presented).fronted() == name@ && step == Step::Tell(Reply::Done)
            } else {
                final(presented).fronted() == old(presented).fronted() && refuses(
                    step,
                    "`"@ + name@ + "` is not a DNS name"@,
                )
            },
            Request::Reconnect => step == Step::Tell(Reply::Done) && final(core)@ == (CoreState {
                reconnects: wrapped(old(core)@.reconnects + 1),
                ..old(core)@
            }),
            Request::Stop => step == Step::Tell(Reply::Done) && final(core)@ == (CoreState {
                stop: true,
                ..old(core)@
            }),
        },
{
    match request {
        Request::Status => Step::Tell(Reply::Status(status(core, resolver, journal))),
        Request::Routes { set, ipv6 } => match read_prefixes(&set) {
            Err(problem) => Step::Tell(Reply::Refused(problem)),
            Ok(wanted) => {
                let leased = resolver.leases().addresses();
                core.set_wants_ipv6(ipv6);
                let change = core.set_routes(wanted, leased.as_slice(), table);
                let step = match &change {
                    Err(problem) => Step::Tell(Reply::Refused(problem.text())),
                    Ok(change) => Step::Tell(
                        Reply::Routes {
                            added: written(change.added.as_slice()),
                            removed: written(change.removed.as_slice()),
                        },
                    ),
                };
                assert(tells_change(change, step));
                step
            },
        },
        Request::Dns { policy } => match resolver.install(policy) {
            Err(problem) => {
                assert(install_refused(policy, old(resolver).at(), problem));
                Step::Tell(Reply::Refused(problem.text()))
            },
            Ok(report) => {
                // The resolvers reached through the tunnel have to be routed there before the first
                // query needs one, or that query goes out over the line and answers from the wrong
                // side.
                let leased = resolver.leases().addresses();
                let added = core.routes_changed(leased.as_slice(), table);
                assert(agrees(
                    old(table).answers(),
                    table.answers(),
                    old(core)@.rows,
                    core@.rows,
                    routed(
                        old(core)@.asked,
                        held_addresses(old(resolver).held()),
                        old(core)@.carries_v6(),
                    ),
                    added,
                ));
                Step::ForgetAndTell(Reply::Policy(report))
            },
        },
        Request::Log { level } => match Level::parse(level.as_str()) {
            None => Step::Tell(
                Reply::Refused(
                    between(
                        "`",
                        level.as_str(),
                        "` is not a level; it is one of error, warn, notice, info, debug",
                    ),
                ),
            ),
            Some(asked) => {
                let before = log::level(journal);
                log::set_level(journal, asked);
                Step::Tell(
                    Reply::Level { level: lowered(asked.word()), moved: asked != before },
                )
            },
        },
        Request::Names { claim } => {
            if !claim {
                return Step::Release;
            }
            match resolver.answers_at() {
                None => Step::Tell(
                    Reply::Refused(String::from_str("this core is not answering names")),
                ),
                Some(at) => Step::TakeOver(at.ip),
            }
        },
        Request::Sni { name } => match set_fronted_name(presented, name.as_str()) {
            Err(problem) => Step::Tell(Reply::Refused(problem)),
            Ok(_) => Step::Tell(Reply::Done),
        },
        Request::Reconnect => {
            core.reconnect();
            Step::Tell(Reply::Done)
        },
        Request::Stop => {
            core.stop();
            Step::Tell(Reply::Done)
        },
    }
}

/// The machine's names were given back.
pub fn released(removed: usize) -> (reply: Reply)
    ensures
        reply == (Reply::Released { removed }),
{
    Reply::Released { removed }
}

/// The machine's names were taken over, or not. A claim that could not be proved is undone before
/// this is told, so a refusal means the machine is exactly as it was.
pub fn taken_over(done: Result<(), NameError>) -> (reply: Reply)
    ensures
        match done {
            Ok(_) => reply == Reply::Claimed,
            Err(problem) => reply matches Reply::Refused(said) && said@ == name_error_text(problem),
        },
{
    match done {
        Ok(_) => Reply::Claimed,
        Err(problem) => Reply::Refused(problem.text()),
    }
}

/// What is told of the routed set can be asked for: a prefix as it is written is read as that prefix.
pub proof fn law_what_is_told_can_be_asked_for(prefix: Prefix)
    requires
        prefix.1 <= match prefix.0 {
            IpAddr::V4(_) => 32u8,
            IpAddr::V6(_) => 128u8,
        },
    ensures
        crate::tun::prefix_written(prefix_shown(prefix)) == Ok::<_, crate::tun::NoPrefix>(prefix),
{
    reveal_strlit("/");
    assert("/"@ =~= seq!['/']);
    crate::tun::law_a_shown_prefix_is_read_back(prefix.0, prefix.1 as nat, Seq::empty());
}

/// A reading is told as it is, its time in whole milliseconds.
pub proof fn law_a_reading_is_told_as_it_is(reading: PathReading)
    ensures
        ({
            let told = path_told(reading);
            &&& told.rtt_ms * 1_000_000 <= reading.rtt < (told.rtt_ms + 1) * 1_000_000
            &&& told.cwnd == reading.cwnd && told.sent == reading.sent && told.lost == reading.lost
            &&& told.datagrams == reading.datagrams && told.read == reading.read
        }),
{
}

/// Each stage is told under its name with its unit, in the order they happened, each with its own time.
pub proof fn law_each_stage_is_told_with_its_time(stages: Stages, i: int)
    requires
        0 <= i < stage_steps(stages).len(),
    ensures
        stages_told(stages).len() == stage_steps(stages).len(),
        stages_told(stages)[i].0 == stage_steps(stages)[i].0 + "_ms"@,
        stage_steps(stages)[i].1 <= u64::MAX ==> stages_told(stages)[i].1 == stage_steps(stages)[i].1,
{
}

} // verus!
