//! The resolver the machine talks to.
//!
//! A forwarder with an opinion about two things only: which upstream answers a name, and whether the
//! addresses in the answer become routes. Records, flags and order are passed through untouched.
//!
//! The one message this module writes is the failure reply, built by editing the query's own header.
//! A forwarder that cannot reach an upstream has to say so: dropping the query would leave the
//! machine waiting out its own timeouts with no other resolver to try.
//!
//! Answering a query alternates what is decided here with what is asked elsewhere: [`receive`] reads
//! the query, whoever listens finds out who asked, [`select`] picks the upstream, whoever listens
//! asks it, and [`settle`] takes in what came back.
//!
//! [`receive`]: Resolver::receive
//! [`select`]: Resolver::select
//! [`settle`]: Resolver::settle

use vstd::prelude::*;
use vstd::string::StringExecFns;
use crate::address::{IpAddr, SocketAddr};
use crate::dns::asker::Askers;
use crate::dns::lease::{brings_news, current, recorded, since, LeaseState, Leases};
use crate::dns::message::{
    answers, answers_of, law_a_written_name_is_read_back, may_be_a_name, question, read_answers,
    read_query, u16_at, written, Answer, Query, Question, Record, CLASS_IN, HEADER_LEN, TYPE_A,
    TYPE_AAAA,
};
use crate::dns::policy::{
    first_match, has_catch_all, is_declared, law_a_catch_all_leaves_no_name_undecided,
    law_the_first_matching_rule_decides, named, normal_lines, refusal, refusal_text, rule_refusal,
    tunnelled, who, Asker, Kind, Line, Policy, PolicyError, PolicyInput, Refusal, Via,
};
use crate::dns::upstream::{
    all_prepared, client_refused, dialling_from, framed_length, has_no_client, prepared, says,
    under_ids, upstream_text, Prepared, Unprepared, Upstream, UpstreamError, Upstreams,
};
use crate::log::Level;
use crate::text::{between, decimal, digits, joined, lower, lowered, same};
use crate::wire::be16_spec;

verus! {

/// The most queries answered at once. Past the bound a query is dropped, which is what a busy
/// resolver does and what every client already knows how to survive.
pub const MAX_IN_FLIGHT: usize = 512;

/// How long a TCP client may hold a connection open with nothing on it, in milliseconds.
pub const TCP_IDLE: u64 = 30_000;

/// The policy and the upstreams that serve it, swapped together and never separately: a policy
/// installed without its upstreams, even for an instant, would name resolvers that do not exist.
struct Installed {
    policy: Policy,
    upstreams: Upstreams,
}

/// Counters worth reporting, and nothing that is only interesting while debugging.
#[derive(Debug, Clone, Copy, PartialEq, Eq, Structural)]
pub struct Stats {
    pub queries: u64,
    pub answered: u64,
    pub failed: u64,
    pub routed: u64,
}

impl Default for Stats {
    fn default() -> (stats: Self)
        ensures
            stats == (Stats { queries: 0, answered: 0, failed: 0, routed: 0 }),
    {
        Stats { queries: 0, answered: 0, failed: 0, routed: 0 }
    }
}

/// What an install changed, for the caller that has to report it.
#[derive(Debug, Clone, Copy, PartialEq, Eq, Structural)]
pub struct InstallReport {
    pub rules: usize,
    pub resolvers: usize,
    pub tunnelled: usize,
}

/// Why a policy was not installed.
#[derive(Debug, PartialEq, Eq)]
pub enum InstallError {
    Policy(PolicyError),
    Upstream(UpstreamError),
    /// The policy decides nothing about some names, and the machine would have names this resolver
    /// refuses to answer and no other resolver to ask.
    NoCatchAll,
    /// A resolver is this core's own address; every name sent there would be a question asked of
    /// itself.
    Circular(String),
}

/// What is said about a policy that was not installed.
pub open spec fn install_text(error: InstallError) -> Seq<char> {
    match error {
        InstallError::Policy(error) => refusal_text(error@),
        InstallError::Upstream(error) => upstream_text(error),
        InstallError::NoCatchAll => {
            "the policy decides nothing about some names; add a rule matching `any`, or the machine would have names this resolver refuses to answer and no other resolver to ask"@
        },
        InstallError::Circular(id) => "the resolver `"@ + id@
            + "` is this core's own address; every name sent there would be a question asked of itself"@,
    }
}

impl InstallError {
    /// What is said about it.
    pub fn text(&self) -> (text: String)
        ensures
            text@ == install_text(*self),
    {
        match self {
            InstallError::Policy(error) => error.text(),
            InstallError::Upstream(error) => error.text(),
            InstallError::NoCatchAll => String::from_str(
                "the policy decides nothing about some names; add a rule matching `any`, or the machine would have names this resolver refuses to answer and no other resolver to ask",
            ),
            InstallError::Circular(id) => between(
                "the resolver `",
                id.as_str(),
                "` is this core's own address; every name sent there would be a question asked of itself",
            ),
        }
    }
}

/// Why a policy is not installed, its names as characters.
pub ghost enum NotInstalled {
    Policy(Refusal),
    Upstream(Unprepared),
    NoCatchAll,
    Circular(Seq<char>),
}

/// Whether an error is this one.
pub open spec fn install_says(error: InstallError, why: NotInstalled) -> bool {
    match why {
        NotInstalled::Policy(refusal) => error matches InstallError::Policy(e) && e@ == refusal,
        NotInstalled::Upstream(why) => error matches InstallError::Upstream(e) && says(e, why),
        NotInstalled::NoCatchAll => error is NoCatchAll,
        NotInstalled::Circular(id) => error matches InstallError::Circular(e) && e@ == id,
    }
}

/// The first plain resolver, from the `from`th on, that stands at an address.
pub open spec fn asks_itself(
    resolvers: Seq<crate::dns::policy::Resolver>,
    from: int,
    listen: Option<SocketAddr>,
) -> Option<Seq<char>>
    decreases resolvers.len() - from,
{
    if listen is None || !(0 <= from < resolvers.len()) {
        None
    } else if resolvers[from].kind == Kind::Plain && resolvers[from].address == listen->0.ip {
        Some(resolvers[from].id@)
    } else {
        asks_itself(resolvers, from + 1, listen)
    }
}

/// Why a policy is not installed by a resolver that answers at an address, if it is not: it is
/// refused, it leaves names undecided, it asks itself, or an upstream of it cannot be prepared.
pub open spec fn not_installed(input: PolicyInput, listen: Option<SocketAddr>) -> Option<
    NotInstalled,
> {
    match refusal(input) {
        Some(refusal) => Some(NotInstalled::Policy(refusal)),
        None => if !has_catch_all(normal_lines(input.rules@)) {
            Some(NotInstalled::NoCatchAll)
        } else {
            match asks_itself(input.resolvers@, 0, listen) {
                Some(id) => Some(NotInstalled::Circular(id)),
                None => match all_prepared(input.resolvers@) {
                    Err(why) => Some(NotInstalled::Upstream(why)),
                    Ok(_) => None,
                },
            }
        },
    }
}

/// Whether an error is why a policy is not installed: one of the reasons there are to refuse it, or,
/// where there are none but that a client has to be built for it, that one could not be.
pub open spec fn install_refused(
    input: PolicyInput,
    listen: Option<SocketAddr>,
    error: InstallError,
) -> bool {
    ||| not_installed(input, listen) matches Some(why) && install_says(error, why)
    ||| {
        &&& refusal(input) is None
        &&& has_catch_all(normal_lines(input.rules@))
        &&& asks_itself(input.resolvers@, 0, listen) is None
        &&& error matches InstallError::Upstream(problem) && client_refused(
            input.resolvers@,
            problem,
        )
    }
}

/// What a query is answered with when it cannot be served: the query, marked as a reply that
/// failed, with nothing behind the question. Nothing where it is too short to be a query.
pub open spec fn failure(query: Seq<u8>) -> Option<Seq<u8>> {
    if query.len() < HEADER_LEN {
        None
    } else {
        Some(
            Seq::new(
                query.len(),
                |i: int|
                    if i == 2 {
                        // A reply. The opcode stays as it was.
                        if query[2] < 0x80 {
                            (query[2] + 0x80) as u8
                        } else {
                            query[2]
                        }
                    } else if i == 3 {
                        // Recursion available, and the server failed.
                        0x82u8
                    } else if 6 <= i < 12 {
                        0u8
                    } else {
                        query[i]
                    },
            ),
        )
    }
}

/// A reply as plain values.
pub open spec fn reply_view(reply: Option<Vec<u8>>) -> Option<Seq<u8>> {
    match reply {
        Some(reply) => Some(reply@),
        None => None,
    }
}

/// The one message this module writes: the query, marked as a reply that could not be served.
///
/// Written by editing the query's own header rather than by building a message. The question is
/// left exactly as it arrived, which is what a client checks, and the section counts are cleared
/// because there is nothing after the question any more.
pub fn failure_reply(query: &[u8]) -> (reply: Option<Vec<u8>>)
    ensures
        reply_view(reply) == failure(query@),
{
    if query.len() < HEADER_LEN {
        return None;
    }
    let mut reply: Vec<u8> = Vec::new();
    reply.extend_from_slice(query);
    assert(reply@ =~= query@);
    if reply[2] < 0x80 {
        reply[2] = reply[2] + 0x80;
    }
    reply[3] = 0x82;
    reply[6] = 0;
    reply[7] = 0;
    reply[8] = 0;
    reply[9] = 0;
    reply[10] = 0;
    reply[11] = 0;
    assert(reply@ =~= failure(query@)->0);
    Some(reply)
}

/// A record type as a person reads it.
pub open spec fn type_shown(qtype: u16) -> Seq<char> {
    if qtype == TYPE_A {
        "A"@
    } else if qtype == TYPE_AAAA {
        "AAAA"@
    } else {
        "?"@
    }
}

/// A record type as a person reads it, for a log line that would otherwise say a number.
pub fn name_of_type(qtype: u16) -> (name: &'static str)
    ensures
        name@ == type_shown(qtype),
{
    if qtype == TYPE_A {
        "A"
    } else if qtype == TYPE_AAAA {
        "AAAA"
    } else {
        "?"
    }
}

/// How long a query over TCP is, from the two bytes before it; none where that is no length a query
/// can have.
pub fn query_length(header: [u8; 2]) -> (length: Option<usize>)
    ensures
        match length {
            Some(length) => length == be16_spec(header@[0], header@[1]) && length >= HEADER_LEN,
            None => be16_spec(header@[0], header@[1]) < HEADER_LEN,
        },
{
    let length = framed_length(header);
    if length < HEADER_LEN {
        None
    } else {
        Some(length)
    }
}

/// What a query that arrived needs.
#[derive(Debug)]
pub enum Incoming {
    /// Answer it with this, or with nothing.
    Reply(Option<Vec<u8>>),
    /// It is the name being watched for: say that it arrived, and answer it with this.
    Arrived(Option<Vec<u8>>),
    /// It asks this: find out who asked.
    Asked(Query),
}

/// An upstream to ask, and what its answer is for.
#[derive(Debug)]
pub struct Asking {
    pub resolver: String,
    pub address: IpAddr,
    /// A resolver asked directly is asked from the line's address for it.
    pub via: Via,
    /// Whether the addresses in the answer become routes.
    pub route: bool,
    pub rule: usize,
}

/// Why a query is put to no upstream.
#[derive(Debug, PartialEq, Eq)]
pub enum Unasked {
    /// No policy is in place yet.
    NoPolicy,
    /// The policy in place decides nothing about the name.
    Undecided,
    /// The rule that decides names a resolver that was not prepared.
    NotPrepared { rule: usize, resolver: String },
}

/// What is said about a query that is put to no upstream.
pub open spec fn unasked_text(why: Unasked, qtype: u16, name: Seq<char>) -> Seq<char> {
    match why {
        Unasked::NoPolicy => type_shown(qtype) + " "@ + name
            + " arrived before a policy was installed"@,
        Unasked::Undecided => "the policy decides nothing about "@ + name,
        Unasked::NotPrepared { rule, resolver } => "rule "@ + digits(rule as nat)
            + " names the resolver `"@ + resolver@ + "`, which was not prepared"@,
    }
}

impl Unasked {
    /// What is said about it.
    pub fn text(&self, asked: &Query) -> (text: String)
        ensures
            text@ == unasked_text(*self, asked.qtype, asked.name@),
    {
        match self {
            Unasked::NoPolicy => {
                let head = between(name_of_type(asked.qtype), " ", asked.name.as_str());
                joined(head.as_str(), " arrived before a policy was installed")
            },
            Unasked::Undecided => joined(
                "the policy decides nothing about ",
                asked.name.as_str(),
            ),
            Unasked::NotPrepared { rule, resolver } => {
                let number = decimal(*rule as u128);
                let head = between("rule ", number.as_str(), " names the resolver `");
                between(head.as_str(), resolver.as_str(), "`, which was not prepared")
            },
        }
    }

    /// How much it matters: a resolver that was not prepared is this core's own fault.
    pub fn level(&self) -> (level: Level)
        ensures
            level == if self is NotPrepared {
                Level::Error
            } else {
                Level::Warn
            },
    {
        match self {
            Unasked::NotPrepared { .. } => Level::Error,
            _ => Level::Warn,
        }
    }
}

/// Where a query goes.
#[derive(Debug)]
pub enum Choice {
    /// Answer it with this, or with nothing, since it is put to no upstream.
    Reply { reply: Option<Vec<u8>>, why: Unasked },
    Ask(Asking),
}

/// What became of a query.
#[derive(Debug)]
pub struct Settled {
    /// Answer it with this, or with nothing.
    pub reply: Option<Vec<u8>>,
    /// Whether the routed addresses changed, so that the routing table has to be made to agree.
    pub routes_changed: bool,
    /// The addresses the answer carried.
    pub found: Vec<Record>,
}

/// A counter one higher. A counter that has counted as far as it can starts again.
pub open spec fn counted(counter: u64, more: int) -> u64 {
    ((counter + more) % 0x1_0000_0000_0000_0000) as u64
}

/// The resolver, its policy, and what it has learned.
pub struct Resolver {
    installed: Option<Installed>,
    leases: Leases,
    stats: Stats,
    /// Who is asking, when that can be established. Only ever used to let a rule about a program
    /// apply.
    askers: Askers,
    /// One name this resolver is watching for: set for a few seconds at a time, while something
    /// checks that the machine's names really do reach here.
    watching: Option<String>,
    /// Where this resolver answers, when it answers anywhere.
    listen: Option<SocketAddr>,
}

/// The addresses that a reply carries, none where it cannot be read.
pub open spec fn addresses_in(reply: Seq<u8>) -> Seq<Answer> {
    match answers(reply) {
        Ok(found) => found,
        Err(_) => Seq::empty(),
    }
}

/// Whether the addresses in an answer to a question become routes: the rule says so, and addresses
/// on the internet are what was asked for.
pub open spec fn asks_for_routes(asked: Question, route: bool) -> bool {
    route && (asked.qtype == TYPE_A || asked.qtype == TYPE_AAAA) && asked.qclass == CLASS_IN
}

impl Resolver {
    /// The policy in place.
    pub closed spec fn policy(&self) -> Option<Policy> {
        match self.installed {
            Some(installed) => Some(installed.policy),
            None => None,
        }
    }

    /// The upstreams in place, by their ids.
    pub closed spec fn ready(&self) -> Map<Seq<char>, Prepared> {
        match self.installed {
            Some(installed) => installed.upstreams@,
            None => Map::empty(),
        }
    }

    /// The addresses held on account of answers.
    pub closed spec fn held(&self) -> Seq<LeaseState> {
        self.leases@
    }

    /// When the leases' clock started.
    pub closed spec fn start(&self) -> u64 {
        self.leases.start()
    }

    /// What has been counted.
    pub closed spec fn counts(&self) -> Stats {
        self.stats
    }

    /// The name being watched for, in lower case.
    pub closed spec fn wanted(&self) -> Option<Seq<char>> {
        match self.watching {
            Some(name) => Some(name@),
            None => None,
        }
    }

    /// Where this resolver answers.
    pub closed spec fn at(&self) -> Option<SocketAddr> {
        self.listen
    }

    /// The readings of who asks.
    pub closed spec fn asking(&self) -> Askers {
        self.askers
    }

    /// Everything this resolver keeps is well formed.
    pub closed spec fn wf(&self) -> bool {
        &&& self.leases.wf()
        &&& self.askers.wf()
        &&& self.installed matches Some(installed) ==> installed.policy.wf()
            && installed.upstreams.wf()
    }

    /// Everything but the counters is as it was.
    pub open spec fn keeps(&self, before: &Self) -> bool {
        &&& self.policy() == before.policy()
        &&& self.ready() == before.ready()
        &&& self.held() == before.held()
        &&& self.start() == before.start()
        &&& self.wanted() == before.wanted()
        &&& self.at() == before.at()
        &&& self.asking() == before.asking()
    }

    /// A resolver with no policy yet.
    ///
    /// It exists before it listens and listens before a policy arrives, which is deliberate: the
    /// listener has to be up before the machine is pointed at it, and every query in the window
    /// between is answered with a refusal rather than dropped.
    pub fn new(leases: Leases, listen: Option<SocketAddr>) -> (resolver: Self)
        requires
            leases.wf(),
        ensures
            resolver.wf(),
            resolver.policy() is None,
            resolver.ready() == Map::<Seq<char>, Prepared>::empty(),
            resolver.held() == leases@,
            resolver.start() == leases.start(),
            resolver.counts() == (Stats { queries: 0, answered: 0, failed: 0, routed: 0 }),
            resolver.wanted() is None,
            resolver.at() == listen,
            resolver.asking().known() == Map::<u32, crate::dns::asker::ProgramState>::empty(),
    {
        Resolver {
            installed: None,
            leases,
            stats: Stats { queries: 0, answered: 0, failed: 0, routed: 0 },
            askers: Askers::new(),
            watching: None,
            listen,
        }
    }

    /// Watch for one name to be asked of this resolver.
    ///
    /// The one thing that proves the machine's names arrive here is a name arriving here. One at a
    /// time: the second watch replaces the first.
    pub fn watch_for(&mut self, name: &str)
        requires
            old(self).wf(),
        ensures
            final(self).wf(),
            final(self).wanted() == Some(lower(name@)),
            final(self).policy() == old(self).policy(),
            final(self).ready() == old(self).ready(),
            final(self).held() == old(self).held(),
            final(self).start() == old(self).start(),
            final(self).counts() == old(self).counts(),
            final(self).at() == old(self).at(),
            final(self).asking() == old(self).asking(),
    {
        self.watching = Some(lowered(name));
    }

    /// Where this resolver answers, when it answers anywhere.
    pub fn answers_at(&self) -> (listen: Option<SocketAddr>)
        ensures
            listen == self.at(),
    {
        self.listen
    }

    /// Stop watching, whether or not the name ever came.
    pub fn stop_watching(&mut self)
        requires
            old(self).wf(),
        ensures
            final(self).wf(),
            final(self).wanted() is None,
            final(self).policy() == old(self).policy(),
            final(self).ready() == old(self).ready(),
            final(self).held() == old(self).held(),
            final(self).start() == old(self).start(),
            final(self).counts() == old(self).counts(),
            final(self).at() == old(self).at(),
            final(self).asking() == old(self).asking(),
    {
        self.watching = None;
    }

    /// Whether this name is the one being watched for, in whatever case it is asked. It fires once:
    /// the watch is over when the name has arrived.
    pub fn watching_for(&mut self, name: &str) -> (arrived: bool)
        requires
            old(self).wf(),
        ensures
            final(self).wf(),
            arrived == (old(self).wanted() == Some(lower(name@))),
            final(self).wanted() == if arrived {
                None
            } else {
                old(self).wanted()
            },
            final(self).policy() == old(self).policy(),
            final(self).ready() == old(self).ready(),
            final(self).held() == old(self).held(),
            final(self).start() == old(self).start(),
            final(self).counts() == old(self).counts(),
            final(self).at() == old(self).at(),
            final(self).asking() == old(self).asking(),
    {
        let asked = lowered(name);
        let arrived = match &self.watching {
            Some(wanted) => same(wanted.as_str(), asked.as_str()),
            None => false,
        };
        if arrived {
            self.watching = None;
        }
        arrived
    }

    /// The first plain resolver of a policy that is this core itself.
    fn circular(&self, policy: &Policy) -> (found: Option<String>)
        ensures
            match found {
                Some(id) => asks_itself(policy.declared(), 0, self.at()) == Some(id@),
                None => asks_itself(policy.declared(), 0, self.at()) is None,
            },
    {
        let listen = match self.listen {
            Some(listen) => listen,
            None => return None,
        };
        let resolvers = policy.resolvers();
        let mut i: usize = 0;
        while i < resolvers.len()
            invariant
                resolvers@ == policy.declared(),
                self.at() == Some(listen),
                i <= resolvers.len(),
                asks_itself(resolvers@, 0, self.at()) == asks_itself(
                    resolvers@,
                    i as int,
                    self.at(),
                ),
            decreases resolvers.len() - i,
        {
            if resolvers[i].kind == Kind::Plain && resolvers[i].address == listen.ip {
                return Some(resolvers[i].id.clone());
            }
            i += 1;
        }
        None
    }

    /// Put a policy in place, replacing whatever was there.
    ///
    /// Everything that can be refused is refused here: a rule naming a resolver nobody declared, a
    /// DoH endpoint that is not a url, a policy that decides nothing about some names. Refusing at
    /// install leaves the previous policy running, which is a working machine; accepting a broken
    /// one would not be.
    pub fn install(&mut self, input: PolicyInput) -> (installed: Result<InstallReport, InstallError>)
        requires
            old(self).wf(),
        ensures
            final(self).wf(),
            final(self).held() == old(self).held(),
            final(self).start() == old(self).start(),
            final(self).counts() == old(self).counts(),
            final(self).wanted() == old(self).wanted(),
            final(self).at() == old(self).at(),
            final(self).asking() == old(self).asking(),
            match installed {
                Ok(report) => {
                    &&& not_installed(input, old(self).at()) is None
                    &&& final(self).policy() matches Some(policy) && policy.wf()
                        && policy.declared() == input.resolvers@ && policy.lines() == normal_lines(
                        input.rules@,
                    )
                    &&& all_prepared(input.resolvers@) matches Ok(ready) && final(self).ready()
                        == under_ids(input.resolvers@, ready)
                    &&& report.rules == input.rules@.len()
                    &&& report.resolvers == named(normal_lines(input.rules@)).len()
                    &&& report.tunnelled == tunnelled(input.resolvers@).len()
                },
                Err(error) => {
                    &&& install_refused(input, old(self).at(), error)
                    &&& final(self).policy() == old(self).policy()
                    &&& final(self).ready() == old(self).ready()
                },
            },
    {
        let ghost resolvers = input.resolvers@;
        let policy = match Policy::build(input) {
            Ok(policy) => policy,
            Err(error) => return Err(InstallError::Policy(error)),
        };
        if !policy.decides_everything() {
            return Err(InstallError::NoCatchAll);
        }
        // A plain resolver at the address this core answers on is this core. The question would be
        // asked of itself, and the answer is not an error but a four-second silence per name.
        if let Some(id) = self.circular(&policy) {
            return Err(InstallError::Circular(id));
        }
        let upstreams = match Upstreams::build(policy.resolvers()) {
            Ok(upstreams) => upstreams,
            Err(error) => return Err(InstallError::Upstream(error)),
        };
        let report = InstallReport {
            rules: policy.rule_count(),
            resolvers: policy.resolver_count(),
            tunnelled: policy.tunnelled_resolvers().len(),
        };
        self.installed = Some(Installed { policy, upstreams });
        Ok(report)
    }

    /// What has been asked and answered, for whoever reports on the core.
    pub fn stats(&self) -> (stats: Stats)
        ensures
            stats == self.counts(),
    {
        self.stats
    }

    /// The addresses answers have put into routing.
    pub fn leases(&self) -> (leases: &Leases)
        requires
            self.wf(),
        ensures
            leases.wf(),
            leases@ == self.held(),
            leases.start() == self.start(),
    {
        &self.leases
    }

    /// Renew the lease on an address that is carrying traffic.
    pub fn touch(&mut self, address: IpAddr, now: u64)
        requires
            old(self).wf(),
        ensures
            final(self).wf(),
            final(self).held() == crate::dns::lease::touched(
                old(self).held(),
                address,
                since(old(self).start(), now),
            ),
            final(self).policy() == old(self).policy(),
            final(self).ready() == old(self).ready(),
            final(self).start() == old(self).start(),
            final(self).counts() == old(self).counts(),
            final(self).wanted() == old(self).wanted(),
            final(self).at() == old(self).at(),
            final(self).asking() == old(self).asking(),
    {
        self.leases.touch(address, now);
    }

    /// The readings of who asks, to look a query's port up in and to bring up to date.
    pub fn askers(&mut self) -> (askers: &mut Askers)
        requires
            old(self).wf(),
        ensures
            askers.wf(),
            *askers == old(self).asking(),
            final(self).asking() == *final(askers),
            final(askers).wf() ==> final(self).wf(),
            final(self).policy() == old(self).policy(),
            final(self).ready() == old(self).ready(),
            final(self).held() == old(self).held(),
            final(self).start() == old(self).start(),
            final(self).counts() == old(self).counts(),
            final(self).wanted() == old(self).wanted(),
            final(self).at() == old(self).at(),
    {
        &mut self.askers
    }

    /// The addresses of every declared resolver that is reached through the tunnel.
    pub fn tunnelled_resolvers(&self) -> (addresses: Vec<IpAddr>)
        ensures
            addresses@ == match self.policy() {
                Some(policy) => tunnelled(policy.declared()),
                None => Seq::empty(),
            },
    {
        match &self.installed {
            Some(installed) => installed.policy.tunnelled_resolvers(),
            None => Vec::new(),
        }
    }

    /// The upstream that is ready under an id.
    pub fn upstream(&self, id: &str) -> (upstream: Option<&Upstream>)
        requires
            self.wf(),
        ensures
            match upstream {
                Some(upstream) => self.ready().contains_key(id@) && self.ready()[id@] == upstream@
                    && upstream.wf(),
                None => !self.ready().contains_key(id@),
            },
    {
        match &self.installed {
            Some(installed) => installed.upstreams.get(id),
            None => None,
        }
    }

    /// Have the upstream that is ready under an id dial from an address, where it is one that keeps a
    /// client. A resolver asked directly is asked from the line's address for it: its address may be
    /// routed into the tunnel for the rest of the machine.
    pub fn dial_from(&mut self, id: &str, from: Option<IpAddr>) -> (done: Result<(), UpstreamError>)
        requires
            old(self).wf(),
        ensures
            final(self).wf(),
            final(self).policy() == old(self).policy(),
            final(self).held() == old(self).held(),
            final(self).start() == old(self).start(),
            final(self).counts() == old(self).counts(),
            final(self).wanted() == old(self).wanted(),
            final(self).at() == old(self).at(),
            final(self).asking() == old(self).asking(),
            match done {
                Ok(_) => final(self).ready() == if old(self).ready().contains_key(id@) {
                    old(self).ready().insert(id@, dialling_from(old(self).ready()[id@], from))
                } else {
                    old(self).ready()
                },
                Err(error) => {
                    &&& final(self).ready() == old(self).ready()
                    &&& old(self).ready().contains_key(id@)
                    &&& match old(self).ready()[id@] {
                        Prepared::Plain { .. } => false,
                        Prepared::Doh { id, from: before, .. } => before != from && has_no_client(
                            error,
                            id,
                        ),
                    }
                },
            },
    {
        match &mut self.installed {
            Some(installed) => installed.upstreams.dial_from(id, from),
            None => Ok(()),
        }
    }

    /// A query could not be served.
    fn fail(&mut self, query: &[u8]) -> (reply: Option<Vec<u8>>)
        requires
            old(self).wf(),
        ensures
            final(self).wf(),
            final(self).keeps(old(self)),
            final(self).counts() == (Stats {
                failed: counted(old(self).counts().failed, 1),
                ..old(self).counts()
            }),
            reply_view(reply) == failure(query@),
    {
        self.stats.failed = self.stats.failed.wrapping_add(1);
        failure_reply(query)
    }

    /// Take in a query: read it, and see whether it is the name being watched for.
    pub fn receive(&mut self, query: &[u8]) -> (incoming: Incoming)
        requires
            old(self).wf(),
        ensures
            final(self).wf(),
            final(self).policy() == old(self).policy(),
            final(self).ready() == old(self).ready(),
            final(self).held() == old(self).held(),
            final(self).start() == old(self).start(),
            final(self).at() == old(self).at(),
            final(self).asking() == old(self).asking(),
            match question(query@) {
                // Not a query this can read. There is nothing to forward and nothing to say about
                // it.
                Err(_) => {
                    &&& incoming matches Incoming::Reply(reply) && reply_view(reply) == failure(
                        query@,
                    )
                    &&& final(self).wanted() == old(self).wanted()
                    &&& final(self).counts() == (Stats {
                        queries: counted(old(self).counts().queries, 1),
                        failed: counted(old(self).counts().failed, 1),
                        ..old(self).counts()
                    })
                },
                Ok(asked) => {
                    let arrived = old(self).wanted() == Some(lower(asked.name));
                    &&& if arrived {
                        incoming matches Incoming::Arrived(reply) && reply_view(reply) == failure(
                            query@,
                        )
                    } else {
                        incoming matches Incoming::Asked(read) && read@ == asked
                    }
                    &&& final(self).wanted() == if arrived {
                        None
                    } else {
                        old(self).wanted()
                    }
                    &&& final(self).counts() == (Stats {
                        queries: counted(old(self).counts().queries, 1),
                        ..old(self).counts()
                    })
                },
            },
    {
        self.stats.queries = self.stats.queries.wrapping_add(1);
        match read_query(query) {
            Err(_) => Incoming::Reply(self.fail(query)),
            Ok(asked) => {
                // Before the policy, and answered without it: this name exists only to be seen
                // arriving, and forwarding it would put a question to an upstream that nobody wants
                // the answer to.
                if self.watching_for(asked.name.as_str()) {
                    Incoming::Arrived(failure_reply(query))
                } else {
                    Incoming::Asked(asked)
                }
            },
        }
    }

    /// Choose the upstream for a query that was read.
    ///
    /// Every way out is a reply or a question asked: a query dropped instead leaves whoever asked
    /// waiting out its own timeout with nowhere else to go, because this is the only resolver the
    /// machine has. The window with no policy in place is not hypothetical: the listener is bound
    /// before the application has installed one.
    pub fn select(&mut self, query: &[u8], asked: &Query, asker: Option<Asker<'_>>) -> (choice:
        Choice)
        requires
            old(self).wf(),
        ensures
            final(self).wf(),
            final(self).keeps(old(self)),
            match choice {
                Choice::Reply { reply, why } => {
                    &&& reply_view(reply) == failure(query@)
                    &&& final(self).counts() == (Stats {
                        failed: counted(old(self).counts().failed, 1),
                        ..old(self).counts()
                    })
                    &&& match old(self).policy() {
                        None => why is NoPolicy,
                        Some(policy) => match first_match(
                            policy.lines(),
                            0,
                            asked.name@,
                            who(asker),
                        ) {
                            None => why is Undecided,
                            Some(rule) => {
                                let id = policy.lines()[rule].resolver;
                                &&& !old(self).ready().contains_key(id)
                                &&& why matches Unasked::NotPrepared { rule: said, resolver }
                                    && said == rule && resolver@ == id
                            },
                        },
                    }
                },
                Choice::Ask(asking) => {
                    &&& final(self).counts() == old(self).counts()
                    &&& old(self).policy() matches Some(policy) && {
                        let line = policy.lines()[asking.rule as int];
                        &&& first_match(policy.lines(), 0, asked.name@, who(asker)) == Some(
                            asking.rule as int,
                        )
                        &&& asking.route == line.route
                        &&& asking.resolver@ == line.resolver
                        &&& old(self).ready().contains_key(line.resolver)
                        &&& exists|k: int|
                            0 <= k < policy.declared().len() && (#[trigger] policy.declared()[k]).id@
                                == line.resolver && policy.declared()[k].address == asking.address
                                && policy.declared()[k].via == asking.via
                    }
                },
            },
    {
        let chosen = match &self.installed {
            None => Err(Unasked::NoPolicy),
            Some(installed) => match installed.policy.decide(asked.name.as_str(), asker) {
                None => Err(Unasked::Undecided),
                Some(decision) => match installed.upstreams.get(decision.resolver.id.as_str()) {
                    None => Err(
                        Unasked::NotPrepared {
                            rule: decision.rule,
                            resolver: decision.resolver.id.clone(),
                        },
                    ),
                    Some(_) => {
                        proof {
                            let declared = installed.policy.declared();
                            let k = choose|k: int|
                                0 <= k < declared.len() && declared[k] == *decision.resolver;
                            assert(declared[k].id@ == decision.resolver.id@);
                        }
                        Ok(
                            Asking {
                                resolver: decision.resolver.id.clone(),
                                address: decision.resolver.address,
                                via: decision.resolver.via,
                                route: decision.route,
                                rule: decision.rule,
                            },
                        )
                    },
                },
            },
        };
        match chosen {
            Ok(asking) => Choice::Ask(asking),
            Err(why) => Choice::Reply { reply: self.fail(query), why },
        }
    }

    /// Take in what an upstream answered.
    ///
    /// The reply is the upstream's own bytes. Only an address answer to an address question becomes
    /// a route. Anything else is forwarded and forgotten.
    pub fn settle(
        &mut self,
        query: &[u8],
        asked: &Query,
        route: bool,
        outcome: Result<Vec<u8>, UpstreamError>,
        now: u64,
    ) -> (settled: Settled)
        requires
            old(self).wf(),
        ensures
            final(self).wf(),
            final(self).policy() == old(self).policy(),
            final(self).ready() == old(self).ready(),
            final(self).start() == old(self).start(),
            final(self).wanted() == old(self).wanted(),
            final(self).at() == old(self).at(),
            final(self).asking() == old(self).asking(),
            match outcome {
                Err(_) => {
                    &&& reply_view(settled.reply) == failure(query@)
                    &&& !settled.routes_changed
                    &&& settled.found@.len() == 0
                    &&& final(self).held() == old(self).held()
                    &&& final(self).counts() == (Stats {
                        failed: counted(old(self).counts().failed, 1),
                        ..old(self).counts()
                    })
                },
                Ok(reply) => {
                    let found = addresses_in(reply@);
                    let moment = since(old(self).start(), now);
                    &&& settled.reply == Some(reply)
                    &&& answers_of(settled.found@) == found
                    &&& final(self).counts() == (Stats {
                        answered: counted(old(self).counts().answered, 1),
                        ..old(self).counts()
                    })
                    &&& if asks_for_routes(asked@, route) {
                        &&& final(self).held() == recorded(
                            old(self).held(),
                            asked.name@,
                            found,
                            moment,
                        )
                        &&& settled.routes_changed == brings_news(
                            old(self).held(),
                            asked.name@,
                            found,
                            moment,
                        )
                    } else {
                        final(self).held() == old(self).held() && !settled.routes_changed
                    }
                },
            },
    {
        let reply = match outcome {
            Ok(reply) => reply,
            Err(_) => {
                return Settled {
                    reply: self.fail(query),
                    routes_changed: false,
                    found: Vec::new(),
                };
            },
        };
        self.stats.answered = self.stats.answered.wrapping_add(1);
        let found = match read_answers(reply.as_slice()) {
            Ok(found) => found,
            Err(_) => {
                let none: Vec<Record> = Vec::new();
                assert(answers_of(none@) =~= Seq::empty());
                none
            },
        };
        let mut routes_changed = false;
        if route && (asked.qtype == TYPE_A || asked.qtype == TYPE_AAAA) && asked.qclass
            == CLASS_IN {
            routes_changed = self.leases.record(asked.name.as_str(), found.as_slice(), now);
        }
        Settled { reply: Some(reply), routes_changed, found }
    }

    /// The routing table took so many addresses.
    ///
    /// What the routing table took, not what the answer held. Those differ twice over: an answer
    /// repeats addresses that are already routed, and a v6 address is left out entirely unless the
    /// tunnel was measured carrying v6.
    pub fn routed(&mut self, installed: usize)
        requires
            old(self).wf(),
        ensures
            final(self).wf(),
            final(self).keeps(old(self)),
            final(self).counts() == (Stats {
                routed: counted(old(self).counts().routed, installed as int),
                ..old(self).counts()
            }),
    {
        self.stats.routed = self.stats.routed.wrapping_add(installed as u64);
    }

    /// Let go of leases whose time has passed. Says whether anything went, and so whether the
    /// routing table has to be told.
    pub fn expire(&mut self, now: u64) -> (any: bool)
        requires
            old(self).wf(),
        ensures
            final(self).wf(),
            final(self).held() == current(old(self).held(), since(old(self).start(), now)),
            any == (final(self).held().len() != old(self).held().len()),
            final(self).policy() == old(self).policy(),
            final(self).ready() == old(self).ready(),
            final(self).start() == old(self).start(),
            final(self).counts() == old(self).counts(),
            final(self).wanted() == old(self).wanted(),
            final(self).at() == old(self).at(),
            final(self).asking() == old(self).asking(),
    {
        self.leases.expire(now)
    }
}

/// A failure is recognisable as an answer to the very question that was asked: the same transaction,
/// a reply, failed, and nothing behind the question.
pub proof fn law_a_failure_keeps_the_question_and_says_it_failed(
    header: Seq<u8>,
    labels: Seq<Seq<u8>>,
    behind: Seq<u8>,
)
    requires
        header.len() == HEADER_LEN,
        may_be_a_name(labels),
    ensures
        ({
            let query = header + written(labels) + behind;
            match failure(query) {
                None => false,
                Some(reply) => {
                    &&& reply.take(2) == query.take(2)
                    &&& reply[2] >= 0x80
                    &&& reply[3] % 16 == 2
                    &&& reply.subrange(4, 6) == query.subrange(4, 6)
                    &&& forall|i: int| 6 <= i < 12 ==> reply[i] == 0
                    &&& reply.skip(12) == query.skip(12)
                    &&& question(reply) == question(query)
                },
            }
        }),
{
    let query = header + written(labels) + behind;
    let reply = failure(query)->0;
    assert(reply.take(2) =~= query.take(2));
    assert(reply.subrange(4, 6) =~= query.subrange(4, 6));
    assert(reply.skip(12) =~= query.skip(12));
    assert(reply =~= reply.take(12) + written(labels) + behind);
    law_a_written_name_is_read_back(header, labels, behind);
    law_a_written_name_is_read_back(reply.take(12), labels, behind);
    assert(u16_at(reply, 4) == u16_at(query, 4));
    assert(u16_at(reply, 0) == u16_at(query, 0));
    let after = 12 + written(labels).len();
    assert(forall|i: int| after <= i < query.len() ==> reply[i] == query[i]);
}

/// Anything long enough to be a query is answered, even by a failure; anything shorter is not.
pub proof fn law_only_what_is_too_short_gets_no_failure(query: Seq<u8>)
    ensures
        failure(query) is None <==> query.len() < HEADER_LEN,
{
}

/// Once a policy is installed, every name has an upstream that is ready, whoever asks: the refusals
/// left are those of an upstream that does not answer.
pub proof fn law_an_installed_policy_leaves_no_name_unanswered(
    input: PolicyInput,
    listen: Option<SocketAddr>,
    name: Seq<char>,
    asker: Option<(Seq<char>, Seq<char>)>,
)
    requires
        not_installed(input, listen) is None,
    ensures
        match (
            first_match(normal_lines(input.rules@), 0, name, asker),
            all_prepared(input.resolvers@),
        ) {
            (Some(rule), Ok(ready)) => under_ids(input.resolvers@, ready).contains_key(
                normal_lines(input.rules@)[rule].resolver,
            ),
            _ => false,
        },
{
    let lines = normal_lines(input.rules@);
    let resolvers = input.resolvers@;
    law_a_catch_all_leaves_no_name_undecided(lines, name, asker);
    law_the_first_matching_rule_decides(lines, Seq::empty(), name, asker);
    let rule = first_match(lines, 0, name, asker)->0;
    lemma_names_a_declared_resolver(resolvers, lines, 0, rule);
    let k = choose|k: int|
        0 <= k < resolvers.len() && (#[trigger] resolvers[k]).id@ == lines[rule].resolver;
    lemma_all_prepared_len(resolvers);
    lemma_ready_under_its_id(resolvers, all_prepared(resolvers)->Ok_0, k);
}

/// A rule of a policy that is not refused names a resolver that is declared.
proof fn lemma_names_a_declared_resolver(
    resolvers: Seq<crate::dns::policy::Resolver>,
    lines: Seq<Line>,
    from: int,
    rule: int,
)
    requires
        0 <= from <= rule < lines.len(),
        rule_refusal(resolvers, lines, from) is None,
    ensures
        is_declared(resolvers, resolvers.len() as int, lines[rule].resolver),
    decreases rule - from,
{
    if from < rule {
        lemma_names_a_declared_resolver(resolvers, lines, from + 1, rule);
    }
}

/// As many are prepared as are declared.
proof fn lemma_all_prepared_len(resolvers: Seq<crate::dns::policy::Resolver>)
    ensures
        all_prepared(resolvers) matches Ok(ready) ==> ready.len() == resolvers.len(),
    decreases resolvers.len(),
{
    if resolvers.len() > 0 {
        lemma_all_prepared_len(resolvers.drop_last());
    }
}

/// Each that is prepared is ready under its id.
proof fn lemma_ready_under_its_id(
    resolvers: Seq<crate::dns::policy::Resolver>,
    ready: Seq<Prepared>,
    k: int,
)
    requires
        ready.len() == resolvers.len(),
        0 <= k < resolvers.len(),
    ensures
        under_ids(resolvers, ready).contains_key(resolvers[k].id@),
    decreases resolvers.len(),
{
    if k < resolvers.len() - 1 {
        lemma_ready_under_its_id(resolvers.drop_last(), ready.drop_last(), k);
    }
}

/// The addresses in an answer become routes exactly where the rule says so and what was asked for is
/// an address, of type 1 or 28, in class 1; a reply that cannot be read carries none.
pub proof fn law_only_addresses_that_were_asked_for_are_routed(
    asked: Question,
    route: bool,
    reply: Seq<u8>,
)
    ensures
        asks_for_routes(asked, route) <==> route && asked.qclass == 1 && (asked.qtype == 1
            || asked.qtype == 28),
        answers(reply) is Err ==> addresses_in(reply).len() == 0,
        answers(reply) matches Ok(found) ==> addresses_in(reply) == found,
{
}

/// A policy that names this core's own address as a plain resolver is one that asks itself, wherever
/// among its resolvers it stands, and no other is: a DoH resolver at that address is somebody else,
/// and a core that answers nowhere cannot be asked.
pub proof fn law_a_policy_asks_itself_where_a_plain_resolver_is_this_core(
    resolvers: Seq<crate::dns::policy::Resolver>,
    listen: Option<SocketAddr>,
)
    ensures
        asks_itself(resolvers, 0, listen) is Some <==> listen is Some && exists|i: int|
            0 <= i < resolvers.len() && (#[trigger] resolvers[i]).kind == Kind::Plain
                && resolvers[i].address == listen->0.ip,
{
    lemma_asks_itself(resolvers, 0, listen);
}

proof fn lemma_asks_itself(
    resolvers: Seq<crate::dns::policy::Resolver>,
    from: int,
    listen: Option<SocketAddr>,
)
    requires
        0 <= from <= resolvers.len(),
    ensures
        asks_itself(resolvers, from, listen) is Some <==> listen is Some && exists|i: int|
            from <= i < resolvers.len() && (#[trigger] resolvers[i]).kind == Kind::Plain
                && resolvers[i].address == listen->0.ip,
    decreases resolvers.len() - from,
{
    if listen is Some && from < resolvers.len() {
        lemma_asks_itself(resolvers, from + 1, listen);
    }
}

/// A failure is the query with six things said of it: it is a reply, its kind of query is as it was,
/// looking up was available, it failed, and it carries no answers, no authorities and nothing more.
pub proof fn law_a_failure_changes_the_header_alone(query: Seq<u8>, i: int)
    requires
        query.len() >= 12,
        0 <= i < query.len(),
    ensures
        failure(query) is Some,
        ({
            let reply = failure(query)->0;
            &&& reply.len() == query.len()
            &&& reply[2] >= 128 && reply[2] % 128 == query[2] % 128
            &&& reply[3] == 0x82
            &&& 6 <= i < 12 ==> reply[i] == 0
            &&& i < 2 || i == 4 || i == 5 || i >= 12 ==> reply[i] == query[i]
        }),
{
}

/// The resolver that is named for asking itself is the first that does.
pub proof fn law_the_first_that_asks_itself_is_named(
    resolvers: Seq<crate::dns::policy::Resolver>,
    listen: SocketAddr,
    at: int,
)
    requires
        0 <= at < resolvers.len(),
        resolvers[at].kind == Kind::Plain,
        resolvers[at].address == listen.ip,
        forall|i: int|
            0 <= i < at ==> (#[trigger] resolvers[i]).kind != Kind::Plain || resolvers[i].address
                != listen.ip,
    ensures
        asks_itself(resolvers, 0, Some(listen)) == Some(resolvers[at].id@),
{
    lemma_named_first(resolvers, 0, listen, at);
}

proof fn lemma_named_first(
    resolvers: Seq<crate::dns::policy::Resolver>,
    from: int,
    listen: SocketAddr,
    at: int,
)
    requires
        0 <= from <= at < resolvers.len(),
        resolvers[at].kind == Kind::Plain,
        resolvers[at].address == listen.ip,
        forall|i: int|
            from <= i < at ==> (#[trigger] resolvers[i]).kind != Kind::Plain || resolvers[i].address
                != listen.ip,
    ensures
        asks_itself(resolvers, from, Some(listen)) == Some(resolvers[at].id@),
    decreases at - from,
{
    if from < at {
        assert(resolvers[from].kind != Kind::Plain || resolvers[from].address != listen.ip);
        lemma_named_first(resolvers, from + 1, listen, at);
    }
}

/// A policy is installed exactly where nothing speaks against it: it is not refused, some rule is for
/// every name, it does not ask itself, and each resolver can be prepared; and the reasons come in that
/// order.
pub proof fn law_the_reasons_not_to_install_a_policy(
    input: PolicyInput,
    listen: Option<SocketAddr>,
)
    ensures
        not_installed(input, listen) is None <==> refusal(input) is None && has_catch_all(
            normal_lines(input.rules@),
        ) && asks_itself(input.resolvers@, 0, listen) is None && all_prepared(input.resolvers@)
            is Ok,
        refusal(input) matches Some(why) ==> not_installed(input, listen) == Some(
            NotInstalled::Policy(why),
        ),
        refusal(input) is None && !has_catch_all(normal_lines(input.rules@)) ==> not_installed(
            input,
            listen,
        ) == Some(NotInstalled::NoCatchAll),
        refusal(input) is None && has_catch_all(normal_lines(input.rules@)) ==> match asks_itself(
            input.resolvers@,
            0,
            listen,
        ) {
            Some(id) => not_installed(input, listen) == Some(NotInstalled::Circular(id)),
            None => all_prepared(input.resolvers@) matches Err(why) ==> not_installed(input, listen)
                == Some(NotInstalled::Upstream(why)),
        },
{
}

} // verus!
