//! Which ClientHello, over which carrier, this link lets carry a tunnel.
//!
//! One tunnel per strategy, opened all the way to CONNECT-IP and then held: a handshake can survive
//! and still reach an endpoint that will not carry packets for this identity.
//!
//! Reading the result:
//!
//! * **`named` held.** This link does not filter the name today; nothing here is needed.
//! * **`named` cut, something else held.** The core can carry its own handshake, and the tunnel no
//!   longer needs a bypass running underneath it.
//! * **`named` cut, `fronted` held, nothing else.** The link classifies the flow by the name and then
//!   acts on it. What carries is presenting a name the link does not act on.
//! * **Something opened and then stopped answering.** The endpoint took the connection and did not
//!   keep it, so the strategy is unusable whatever its handshake looked like.
//! * **Nothing opened, `fronted` included.** The address is blocked, not the name, and none of this
//!   is the remedy.

use vstd::prelude::*;
use vstd::string::{StrSliceExecFns, StringExecFns};
use crate::address::shown::{show, shown};
use crate::address::IpAddr;
use crate::diagnose::packets::{echo_packet, echo_reply, icmp_echo_reply, ipv4_icmp_echo};
use crate::report::{kib, to_one_place};
use crate::text::{decimal, digits, joined, list, listed, texts};
use crate::transport::carrier::{carrier_name, Carrier};
use crate::transport::connect_ip::{connect_text, stages_shown, ConnectError, Stages};
use crate::transport::handshake::{handshake_name, rides_quic, Handshake};

verus! {

/// How long one attempt may take, in milliseconds. The same the engine gives a real attempt: a
/// strategy that only succeeds after longer than the engine would wait has not succeeded.
pub const ATTEMPT_TIMEOUT: u64 = 20_000;

/// How much has to go through the tunnel before a strategy counts as usable, and in what shape.
///
/// A filtered link does not only match names, it also watches how much a connection has carried, and
/// a connection that goes quiet after the first tens of kilobytes is a known shape of that. So many
/// echoes of so many bytes put roughly 77 KiB across in each direction, which is far enough past any
/// such threshold to be a real answer rather than a hopeful one.
pub const CARRY_PAYLOAD: usize = 1200;

pub const CARRY_ROUNDS: usize = 8;

pub const CARRY_PER_ROUND: usize = 8;

/// How long the replies of a round are waited for, in milliseconds.
pub const CARRY_WAIT: u64 = 3000;

/// How far apart the echoes are, in milliseconds. Spaced rather than blasted: a burst is what makes
/// a well-behaved host stop replying, and this is measuring the path, not the host's patience.
pub const CARRY_SPACING: u64 = 60;

/// How many pings a strategy has to survive before it counts as usable.
///
/// The engine asks every five seconds and gives up after five. Two rounds is the smallest number
/// that distinguishes a tunnel which is up from one which merely opened.
pub const HOLD_ROUNDS: usize = 2;

/// How far apart the pings are, and how long each may take, in milliseconds.
pub const HOLD_EVERY: u64 = 5000;

pub const HOLD_TIMEOUT: u64 = 5000;

/// What marks the echoes as this run's.
pub const ID: u16 = 0x6d71;

/// Where the echoes go.
pub open spec fn target() -> Seq<u8> {
    seq![1u8, 1, 1, 1]
}

/// What each echo carries.
pub open spec fn filling() -> Seq<u8> {
    Seq::new(CARRY_PAYLOAD as nat, |i: int| 0x5au8)
}

/// What each echo carries.
fn payload() -> (payload: Vec<u8>)
    ensures
        payload@ == filling(),
{
    let mut payload: Vec<u8> = Vec::new();
    while payload.len() < CARRY_PAYLOAD
        invariant
            payload@.len() <= CARRY_PAYLOAD,
            forall|i: int| 0 <= i < payload@.len() ==> payload@[i] == 0x5a,
        decreases CARRY_PAYLOAD - payload@.len(),
    {
        payload.push(0x5a);
    }
    assert(payload@ =~= filling());
    payload
}

/// The strategies that are tried: all of them, or one.
pub open spec fn tried(only: Option<Handshake>) -> Seq<Handshake> {
    match only {
        Some(one) => seq![one],
        None => seq![
            Handshake::Named,
            Handshake::NoSni,
            Handshake::Split,
            Handshake::SplitSlow,
            Handshake::Fronted,
        ],
    }
}

/// The strategies that are tried: all of them, or one.
pub fn strategies(only: Option<Handshake>) -> (all: Vec<Handshake>)
    ensures
        all@ == tried(only),
{
    let all: Vec<Handshake> = match only {
        Some(one) => vec![one],
        None => vec![
            Handshake::Named,
            Handshake::NoSni,
            Handshake::Split,
            Handshake::SplitSlow,
            Handshake::Fronted,
        ],
    };
    assert(all@ =~= tried(only));
    all
}

/// The carriers a strategy is tried over. Each name over both: the name is read in QUIC's Initial as
/// it is in TLS's ClientHello, and the two paths can be treated differently. The splits are TCP's
/// alone.
pub fn carriers(strategy: Handshake) -> (all: Vec<Carrier>)
    ensures
        all@ == if rides_quic(strategy) {
            seq![Carrier::H2, Carrier::H3]
        } else {
            seq![Carrier::H2]
        },
{
    if strategy.works_over_quic() {
        let all = vec![Carrier::H2, Carrier::H3];
        assert(all@ =~= seq![Carrier::H2, Carrier::H3]);
        all
    } else {
        let all = vec![Carrier::H2];
        assert(all@ =~= seq![Carrier::H2]);
        all
    }
}

/// A text filled up with spaces to a width.
pub open spec fn filled(text: Seq<char>, width: nat) -> Seq<char> {
    if text.len() >= width {
        text
    } else {
        text + Seq::new((width - text.len()) as nat, |i: int| ' ')
    }
}

/// A text filled up with spaces to a width.
fn fill(text: &str, width: usize) -> (out: String)
    ensures
        out@ == filled(text@, width as nat),
{
    let mut out = String::from_str(text);
    let len: usize = text.unicode_len();
    let mut at: usize = len;
    while at < width
        invariant
            len == text@.len(),
            len <= at,
            at <= width || at == len,
            out@ == text@ + Seq::new((at - len) as nat, |i: int| ' '),
        decreases width - at,
    {
        let ghost before = out@;
        out.push(' ');
        at += 1;
        assert(out@ =~= text@ + Seq::new((at - len) as nat, |i: int| ' '));
    }
    assert(out@ =~= filled(text@, width as nat));
    out
}

/// What a strategy is described as.
pub open spec fn handshake_line(strategy: Handshake) -> Seq<char> {
    match strategy {
        Handshake::Named => "the expected name, in one write"@,
        Handshake::NoSni => "no name at all"@,
        Handshake::Split => "the name, cut across two segments"@,
        Handshake::SplitSlow => "the same cut, second half held back"@,
        Handshake::Fronted => "an unfiltered Cloudflare name instead"@,
    }
}

/// One row of the table.
pub fn row(strategy: Handshake, carrier: Carrier, outcome: &str) -> (line: String)
    ensures
        line@ == filled(handshake_name(strategy), 12) + " "@ + filled(carrier_name(carrier), 5)
            + " "@ + filled(handshake_line(strategy), 35) + " "@ + outcome@,
{
    let mut line = fill(strategy.name(), 12);
    let over = fill(carrier.name(), 5);
    let what = fill(strategy.describes(), 35);
    line.append(" ");
    line.append(over.as_str());
    line.append(" ");
    line.append(what.as_str());
    line.append(" ");
    line.append(outcome);
    line
}

/// What is known of where the connection leaves this machine by.
#[derive(Debug)]
pub enum Leaving {
    /// By the interface with this address.
    By(IpAddr),
    /// It could not be established, and what was said about it.
    Unknown(String),
    /// The endpoint is not reachable at all, and what was said about it.
    Unreachable(String),
}

/// What is said about where the connection leaves by.
pub open spec fn leaving_line(leaving: Leaving) -> Seq<char> {
    match leaving {
        Leaving::By(address) => "leaving   by "@ + shown(address)
            + " (this machine's address on that path)"@,
        Leaving::Unknown(said) => "leaving   could not be established: "@ + said@,
        Leaving::Unreachable(said) => "leaving   the endpoint is not reachable at all: "@ + said@,
    }
}

/// What is said before a single strategy is tried.
///
/// Which interface the connection leaves by is what makes the rest of the output mean anything. A
/// full-tunnel client on this machine takes the default route, and every strategy then travels
/// inside it: the filtering on the line never sees the handshake, so every strategy works and the
/// run has measured someone else's tunnel. A packet-level bypass rewrites what leaves the same
/// interface, which is why it is said rather than checked.
pub fn preamble(leaving: &Leaving) -> (lines: Vec<String>)
    ensures
        texts(lines@) == seq![
            leaving_line(*leaving),
            "          If that is not this machine's address on the line itself, every result"@,
            "          below describes whatever holds the default route — not the line."@,
            "          A DPI bypass would front these from that same address and not show here."@,
            "          Stop it before trusting the table."@,
            ""@,
            "strategy     over  what it does                        result"@,
        ],
{
    let first = match leaving {
        Leaving::By(address) => {
            let address = show(*address);
            let start = joined("leaving   by ", address.as_str());
            joined(start.as_str(), " (this machine's address on that path)")
        },
        Leaving::Unknown(said) => joined("leaving   could not be established: ", said.as_str()),
        Leaving::Unreachable(said) => joined(
            "leaving   the endpoint is not reachable at all: ",
            said.as_str(),
        ),
    };
    let mut lines: Vec<String> = Vec::new();
    lines.push(first);
    lines.push(
        String::from_str(
            "          If that is not this machine's address on the line itself, every result",
        ),
    );
    lines.push(
        String::from_str(
            "          below describes whatever holds the default route — not the line.",
        ),
    );
    lines.push(
        String::from_str(
            "          A DPI bypass would front these from that same address and not show here.",
        ),
    );
    lines.push(String::from_str("          Stop it before trusting the table."));
    lines.push(String::from_str(""));
    lines.push(
        String::from_str("strategy     over  what it does                        result"),
    );
    assert(texts(lines@) =~= seq![
        leaving_line(*leaving),
        "          If that is not this machine's address on the line itself, every result"@,
        "          below describes whatever holds the default route — not the line."@,
        "          A DPI bypass would front these from that same address and not show here."@,
        "          Stop it before trusting the table."@,
        ""@,
        "strategy     over  what it does                        result"@,
    ]);
    lines
}

/// What an attempt came to.
#[derive(Debug)]
pub enum Attempt {
    /// The tunnel opened after so many milliseconds, through these stages, and then carried, or not.
    Opened { ms: u128, stages: Stages, carried: Result<String, String> },
    /// It did not open.
    Failed(ConnectError),
    TimedOut,
}

/// What an attempt is reported as, and whether its strategy counts as one that opened.
///
/// A strategy that cannot carry traffic is not one the engine can use, and reporting it beside the
/// ones that can is what would let a session that merely opened be taken for one that works.
pub fn outcome(attempt: &Attempt) -> (out: (String, bool))
    ensures
        out.1 == (attempt matches Attempt::Opened { carried: Ok(_), .. }),
        out.0@ == match *attempt {
            Attempt::Opened { ms, stages, carried } => "opened in "@ + digits(ms as nat) + " ms ("@
                + stages_shown(stages) + ")"@ + ", "@ + match carried {
                Ok(said) => said@,
                Err(said) => said@,
            },
            Attempt::Failed(problem) => connect_text(problem),
            Attempt::TimedOut => "no answer within 20 s"@,
        },
{
    match attempt {
        Attempt::Opened { ms, stages, carried } => {
            let took = decimal(*ms);
            let through = stages.to_string();
            let mut line = String::from_str("opened in ");
            line.append(took.as_str());
            line.append(" ms (");
            line.append(through.as_str());
            line.append(")");
            line.append(", ");
            match carried {
                Ok(said) => {
                    line.append(said.as_str());
                    (line, true)
                },
                Err(said) => {
                    line.append(said.as_str());
                    (line, false)
                },
            }
        },
        Attempt::Failed(problem) => (problem.text(), false),
        Attempt::TimedOut => (String::from_str("no answer within 20 s"), false),
    }
}

/// The strategies that held over a carrier.
pub open spec fn held_over(opened: Seq<(Handshake, Carrier)>, carrier: Carrier) -> Seq<Handshake>
    decreases opened.len(),
{
    if opened.len() == 0 {
        Seq::empty()
    } else {
        let before = held_over(opened.drop_last(), carrier);
        if opened.last().1 == carrier {
            before.push(opened.last().0)
        } else {
            before
        }
    }
}

/// The strategies that held over a carrier.
pub fn over(opened: &Vec<(Handshake, Carrier)>, carrier: Carrier) -> (strategies: Vec<Handshake>)
    ensures
        strategies@ == held_over(opened@, carrier),
{
    let mut strategies: Vec<Handshake> = Vec::new();
    let mut at: usize = 0;
    assert(opened@.take(0) =~= Seq::empty());
    while at < opened.len()
        invariant
            at <= opened@.len(),
            strategies@ == held_over(opened@.take(at as int), carrier),
        decreases opened@.len() - at,
    {
        assert(opened@.take(at + 1).drop_last() =~= opened@.take(at as int));
        if opened[at].1 == carrier {
            strategies.push(opened[at].0);
        }
        at += 1;
    }
    assert(opened@.take(at as int) =~= opened@);
    strategies
}

/// What is said where nothing opened.
pub const NOTHING_OPENED: &'static str =
    "verdict   nothing opened. Either the endpoint address is blocked outright, or this 
                       machine has no path to it at all — neither is answered by the ClientHello.";

/// What is said where the link did not filter the name.
///
/// Two questions are being asked at once, and only one of them can be answered there. The endpoint's
/// willingness travels with the strategy; the link's is a property of where the run happened.
pub const NOT_FILTERED: &'static str =
    "verdict   this link did not filter the expected name, so it has said nothing about
                           whether removing the name defeats one that does. Measure again on a link
                           that cuts `named`.";

pub const SETTLED: &'static str = "          Settled regardless of the link — the endpoint itself accepts: ";

pub const NO_SNI_AMONG_THEM: &'static str =
    "          `no-sni` among them means the endpoint does not route MASQUE by the name
                               at all: the key pinned from registration verified without one. Only the
                               link's half of the question is left.";

/// What is said where only a name the link does not act on carries.
///
/// The endpoint answers under any name, since the key pinned at registration verifies. When this is
/// the only strategy left standing, the link is reading the name and acting on the flow it names.
pub const FRONTED_ONLY: &'static str =
    "verdict   the name is what is acted on, and an unfiltered Cloudflare name is what
                           carries. The endpoint answers under it — the pinned key verified — so this
                           is usable, not a control.";

pub const RUN_FRONTED: &'static str =
    "          Run the tunnel with `--handshake fronted` and no bypass under it.";

pub const CAN_CARRY: &'static str =
    "verdict   this core can carry its own handshake on this link, with: ";

pub const RUN_ONE_OF_THOSE: &'static str =
    "          Run the tunnel with `--handshake <one of those>` and no bypass under it.";

pub const NOTHING_OVER_H3: &'static str =
    "over h3   nothing held: the tunnel falls through to h2 on this link.";

/// The names of strategies.
pub open spec fn names(strategies: Seq<Handshake>) -> Seq<Seq<char>> {
    strategies.map_values(|strategy: Handshake| handshake_name(strategy))
}

/// The verdict on what held over HTTP/2, where every strategy was tried, and what held over HTTP/3.
pub open spec fn verdict_lines(over_h2: Seq<Handshake>, over_h3: Seq<Handshake>) -> Seq<
    Seq<char>,
> {
    let about_the_name = if over_h2.len() == 0 {
        seq![NOTHING_OPENED@]
    } else if over_h2.contains(Handshake::Named) {
        if over_h2.contains(Handshake::NoSni) {
            seq![NOT_FILTERED@, SETTLED@ + listed(names(over_h2)), NO_SNI_AMONG_THEM@]
        } else {
            seq![NOT_FILTERED@, SETTLED@ + listed(names(over_h2))]
        }
    } else if over_h2 == seq![Handshake::Fronted] {
        seq![FRONTED_ONLY@, RUN_FRONTED@]
    } else {
        seq![CAN_CARRY@ + listed(names(over_h2)), RUN_ONE_OF_THOSE@]
    };
    about_the_name.push(
        if over_h3.len() == 0 {
            NOTHING_OVER_H3@
        } else {
            "over h3   held with: "@ + listed(names(over_h3))
                + ". `--transport auto` tries h3 first with the chosen handshake."@
        },
    )
}

/// The names of strategies, with commas between.
fn list_names(strategies: &Vec<Handshake>) -> (text: String)
    ensures
        text@ == listed(names(strategies@)),
{
    let mut all: Vec<String> = Vec::new();
    let mut at: usize = 0;
    while at < strategies.len()
        invariant
            at <= strategies@.len(),
            texts(all@) == names(strategies@.take(at as int)),
        decreases strategies@.len() - at,
    {
        let ghost before = all@;
        all.push(String::from_str(strategies[at].name()));
        proof {
            assert(texts(all@) =~= texts(before).push(handshake_name(strategies@[at as int])));
            assert(names(strategies@.take(at + 1)) =~= names(strategies@.take(at as int)).push(
                handshake_name(strategies@[at as int]),
            ));
        }
        at += 1;
    }
    assert(strategies@.take(at as int) =~= strategies@);
    list(&all)
}

/// Whether a strategy is among some.
fn is_among(strategies: &Vec<Handshake>, wanted: Handshake) -> (among: bool)
    ensures
        among == strategies@.contains(wanted),
{
    let mut at: usize = 0;
    while at < strategies.len()
        invariant
            at <= strategies@.len(),
            forall|i: int| 0 <= i < at ==> strategies@[i] != wanted,
        decreases strategies@.len() - at,
    {
        if strategies[at] == wanted {
            return true;
        }
        at += 1;
    }
    false
}

/// The verdict. The one about the name is read off HTTP/2, where every strategy was tried; HTTP/3's
/// result follows it as a line of its own.
pub fn verdict(over_h2: &Vec<Handshake>, over_h3: &Vec<Handshake>) -> (lines: Vec<String>)
    ensures
        texts(lines@) == verdict_lines(over_h2@, over_h3@),
{
    let mut lines: Vec<String> = Vec::new();
    if over_h2.len() == 0 {
        lines.push(String::from_str(NOTHING_OPENED));
    } else if is_among(over_h2, Handshake::Named) {
        let all = list_names(over_h2);
        lines.push(String::from_str(NOT_FILTERED));
        lines.push(joined(SETTLED, all.as_str()));
        if is_among(over_h2, Handshake::NoSni) {
            lines.push(String::from_str(NO_SNI_AMONG_THEM));
        }
    } else if over_h2.len() == 1 && over_h2[0] == Handshake::Fronted {
        assert(over_h2@ =~= seq![Handshake::Fronted]);
        lines.push(String::from_str(FRONTED_ONLY));
        lines.push(String::from_str(RUN_FRONTED));
    } else {
        let all = list_names(over_h2);
        lines.push(joined(CAN_CARRY, all.as_str()));
        lines.push(String::from_str(RUN_ONE_OF_THOSE));
    }
    if over_h3.len() == 0 {
        lines.push(String::from_str(NOTHING_OVER_H3));
    } else {
        let all = list_names(over_h3);
        let mut line = String::from_str("over h3   held with: ");
        line.append(all.as_str());
        line.append(". `--transport auto` tries h3 first with the chosen handshake.");
        lines.push(line);
    }
    assert(texts(lines@) =~= verdict_lines(over_h2@, over_h3@));
    lines
}

/// What is being waited for.
#[derive(Debug, Clone, Copy, PartialEq, Eq, Structural)]
pub enum Awaiting {
    /// An echo to be taken.
    Sent,
    /// The space between two echoes to pass.
    Spaced,
    /// The replies of a round.
    Replies,
    /// An answer, after a round that brought back nothing: silence has two causes and they mean
    /// opposite things, so the tunnel is asked before anything is concluded.
    Alive,
    /// The time before the next ping to pass.
    Held,
    /// An answer to a ping.
    Pong,
    /// Nothing any more.
    Done,
}

/// What happened.
#[derive(Debug)]
pub enum CarryEvent {
    /// The echo was taken.
    Sent,
    /// It was not, and what was said about it.
    NotSent(String),
    /// The time passed.
    Passed,
    /// A packet came.
    Came(Vec<u8>),
    /// The tunnel closed.
    Closed,
    /// The tunnel failed, and what was said about it.
    Failed(String),
    /// The time for the replies, or for an answer, is over.
    TimedOut,
    /// The endpoint answered.
    Answered,
}

/// What to do about it.
#[derive(Debug)]
pub enum CarryAction {
    /// Send this.
    Send(Vec<u8>),
    /// Wait for the space between two echoes.
    Space,
    /// Wait for a reply, until the time for the round's replies is over. It starts with the first
    /// wait of a round.
    Receive { first: bool },
    /// Ask the endpoint to answer.
    Probe,
    /// Wait for the time before a ping.
    Hold,
    /// The strategy carried and held, or why not.
    Finish(Result<String, String>),
}

/// Traffic on its way through a tunnel that was opened, and then the question whether it is still
/// there.
///
/// The order is the point. Carrying first is what would trip a limit on volume; pinging afterwards
/// is what notices that it did.
///
/// Echo requests rather than anything higher up, because they need no TCP stack of this core's own
/// and the replies make the return path measurable too: a tunnel that carries out and not back is
/// still a tunnel that does not work.
#[derive(Debug, Clone, Copy, PartialEq, Eq)]
pub struct Carrying {
    /// This side's address in the tunnel.
    pub inside: [u8; 4],
    /// Bytes handed to the tunnel.
    pub sent: usize,
    /// Echoes sent, and replies to them.
    pub seq: u16,
    pub replies: usize,
    /// Rounds finished, and echoes and replies in the one under way.
    pub round: usize,
    pub in_round: usize,
    pub back: usize,
    /// Pings asked for.
    pub pings: usize,
    pub awaiting: Awaiting,
}

/// The bytes of so many echoes: two headers and what each carries.
pub open spec fn echoes_len(count: int) -> int {
    count * 1228
}

/// So many bytes, as they are written.
pub open spec fn in_kib(bytes: usize) -> Seq<char> {
    to_one_place(bytes as nat, 1024) + " KiB"@
}

impl Carrying {
    /// The counts go together: each echo is of one size, and rounds are of eight.
    pub open spec fn wf(&self) -> bool {
        &&& self.seq == self.round * 8 + self.in_round
        &&& self.sent == echoes_len(self.seq as int)
        &&& self.in_round <= CARRY_PER_ROUND
        &&& self.round <= CARRY_ROUNDS
        &&& self.back <= self.in_round
        &&& self.replies <= self.round * 8 + self.back
        &&& self.pings <= HOLD_ROUNDS
        &&& self.round == CARRY_ROUNDS ==> self.in_round == 0
        &&& self.awaiting == Awaiting::Sent || self.awaiting == Awaiting::Spaced ==> self.round
            < CARRY_ROUNDS && self.in_round > 0 && self.back == 0
        &&& self.awaiting == Awaiting::Replies ==> self.round < CARRY_ROUNDS && self.in_round
            == CARRY_PER_ROUND && self.back < CARRY_PER_ROUND
        &&& self.awaiting == Awaiting::Held || self.awaiting == Awaiting::Pong ==> self.pings >= 1
    }

    /// Whether an event is one that can come now.
    pub open spec fn expects(&self, event: CarryEvent) -> bool {
        match self.awaiting {
            Awaiting::Sent => event is Sent || event is NotSent,
            Awaiting::Spaced => event is Passed,
            Awaiting::Replies => event is Came || event is Closed || event is Failed
                || event is TimedOut,
            Awaiting::Alive => event is Answered || event is Failed || event is TimedOut,
            Awaiting::Held => event is Passed,
            Awaiting::Pong => event is Answered || event is Failed || event is TimedOut,
            Awaiting::Done => false,
        }
    }

    /// One echo more.
    pub open spec fn sending(self) -> Self {
        Carrying {
            seq: (self.seq + 1) as u16,
            sent: (self.sent + 28 + CARRY_PAYLOAD) as usize,
            in_round: (self.in_round + 1) as usize,
            awaiting: Awaiting::Sent,
            ..self
        }
    }

    /// A round that brought something back is over: the next one, or the pings.
    pub open spec fn round_over(self) -> Self {
        let over = Carrying { round: (self.round + 1) as usize, in_round: 0, back: 0, ..self };
        if over.round < CARRY_ROUNDS {
            over.sending()
        } else {
            Carrying { pings: 1, awaiting: Awaiting::Held, ..over }
        }
    }

    /// It is over.
    pub open spec fn done(self) -> Self {
        Carrying { awaiting: Awaiting::Done, ..self }
    }

    /// Whether an action sends the echo that was counted last.
    pub open spec fn sends(self, action: CarryAction) -> bool {
        action matches CarryAction::Send(packet) && packet@ == echo_packet(
            self.inside@,
            target(),
            ID,
            self.seq,
            filling(),
        )
    }

    /// Whether an action is what follows a round that brought something back.
    pub open spec fn goes_on(self, action: CarryAction) -> bool {
        if self.awaiting == Awaiting::Sent {
            self.sends(action)
        } else {
            action is Hold
        }
    }
}

/// An echo of this run.
fn echo_for(inside: [u8; 4], seq: u16) -> (packet: Vec<u8>)
    ensures
        packet@ == echo_packet(inside@, target(), ID, seq, filling()),
        packet@.len() == 28 + CARRY_PAYLOAD,
{
    let payload = payload();
    let far: [u8; 4] = [1, 1, 1, 1];
    assert(far@ =~= target());
    ipv4_icmp_echo(inside, far, ID, seq, payload.as_slice())
}

/// Whether a packet is a reply to this run.
fn is_reply(packet: &[u8], inside: [u8; 4]) -> (reply: bool)
    ensures
        reply == (echo_reply(packet@, inside@, ID) is Some),
{
    icmp_echo_reply(packet, inside, ID).is_some()
}

/// Whether an action reports that the strategy does not do.
pub open spec fn reports(action: CarryAction, words: Seq<char>) -> bool {
    action matches CarryAction::Finish(Err(said)) && said@ == words
}

/// Whether a state and an action are what an event in a state comes to.
pub open spec fn carries(
    before: Carrying,
    event: CarryEvent,
    after: Carrying,
    action: CarryAction,
) -> bool {
    match event {
        CarryEvent::Sent => after == (Carrying { awaiting: Awaiting::Spaced, ..before })
            && action is Space,
        CarryEvent::NotSent(said) => after == before.done() && reports(
            action,
            "the tunnel stopped taking packets after "@ + in_kib(before.sent) + ": "@ + said@,
        ),
        CarryEvent::Passed => if before.awaiting == Awaiting::Held {
            after == (Carrying { awaiting: Awaiting::Pong, ..before }) && action is Probe
        } else if before.in_round < CARRY_PER_ROUND {
            after == before.sending() && after.sends(action)
        } else {
            after == (Carrying { awaiting: Awaiting::Replies, ..before }) && (
            action matches CarryAction::Receive { first: true })
        },
        CarryEvent::Came(packet) => if echo_reply(packet@, before.inside@, ID) is None {
            after == before && (action matches CarryAction::Receive { first: false })
        } else {
            let counted = Carrying {
                back: (before.back + 1) as usize,
                replies: (before.replies + 1) as usize,
                ..before
            };
            if counted.back < CARRY_PER_ROUND {
                after == counted && (action matches CarryAction::Receive { first: false })
            } else {
                after == counted.round_over() && after.goes_on(action)
            }
        },
        CarryEvent::Closed => after == before.done() && reports(
            action,
            "the tunnel closed after "@ + in_kib(before.sent),
        ),
        CarryEvent::Failed(said) => match before.awaiting {
            Awaiting::Replies => after == before.done() && reports(
                action,
                "the tunnel failed after "@ + in_kib(before.sent) + ": "@ + said@,
            ),
            // The tunnel took the bytes and stopped being a tunnel. That is the path.
            Awaiting::Alive => after == before.done() && reports(
                action,
                "DIED after carrying "@ + in_kib(before.sent),
            ),
            _ => after == before.done() && reports(
                action,
                "carried "@ + in_kib(before.sent) + ", then failed on ping "@ + digits(
                    before.pings as nat,
                ) + ": "@ + said@,
            ),
        },
        CarryEvent::TimedOut => match before.awaiting {
            Awaiting::Replies => if before.back == 0 {
                after == (Carrying { awaiting: Awaiting::Alive, ..before }) && action is Probe
            } else {
                after == before.round_over() && after.goes_on(action)
            },
            Awaiting::Alive => after == before.done() && reports(
                action,
                "DIED after carrying "@ + in_kib(before.sent),
            ),
            _ => after == before.done() && reports(
                action,
                "carried "@ + in_kib(before.sent) + ", then no answer to ping "@ + digits(
                    before.pings as nat,
                ) + " within 5 s"@,
            ),
        },
        CarryEvent::Answered => if before.awaiting == Awaiting::Alive {
            // The tunnel answers, so only the far host went quiet: ordinary rate limiting, and
            // nothing at all about the path.
            after == before.done() && reports(
                action,
                "only the target went quiet at "@ + in_kib(before.sent) + " (tunnel alive)"@,
            )
        } else if before.pings < HOLD_ROUNDS {
            after == (Carrying {
                pings: (before.pings + 1) as usize,
                awaiting: Awaiting::Held,
                ..before
            }) && action is Hold
        } else {
            after == before.done() && (action matches CarryAction::Finish(Ok(said)) && said@
                == "carried "@ + in_kib(before.sent) + " · "@ + digits(before.replies as nat) + "/"@
                + digits(before.seq as nat) + " back · held 2 pings"@)
        },
    }
}

impl Carrying {
    /// Traffic about to go through a tunnel, and the first echo of it.
    pub fn begin(inside: [u8; 4]) -> (begun: (Self, CarryAction))
        ensures
            begun.0.wf(),
            begun.0.inside == inside,
            begun.0.seq == 1,
            begun.0.awaiting == Awaiting::Sent,
            begun.0.sends(begun.1),
    {
        let mut carrying = Carrying {
            inside,
            sent: 0,
            seq: 0,
            replies: 0,
            round: 0,
            in_round: 0,
            back: 0,
            pings: 0,
            awaiting: Awaiting::Spaced,
        };
        let action = carrying.send_next();
        (carrying, action)
    }

    /// Count one echo more, and send it.
    fn send_next(&mut self) -> (action: CarryAction)
        requires
            old(self).seq == old(self).round * 8 + old(self).in_round,
            old(self).sent == echoes_len(old(self).seq as int),
            old(self).round < CARRY_ROUNDS,
            old(self).in_round < CARRY_PER_ROUND,
        ensures
            *final(self) == old(self).sending(),
            final(self).sends(action),
            final(self).seq == old(self).seq + 1,
            final(self).sent == old(self).sent + 28 + CARRY_PAYLOAD,
    {
        self.seq += 1;
        self.in_round += 1;
        self.awaiting = Awaiting::Sent;
        let packet = echo_for(self.inside, self.seq);
        self.sent += packet.len();
        CarryAction::Send(packet)
    }

    /// A round that brought something back is over.
    fn next_round(&mut self) -> (action: CarryAction)
        requires
            old(self).seq == old(self).round * 8 + old(self).in_round,
            old(self).sent == echoes_len(old(self).seq as int),
            old(self).round < CARRY_ROUNDS,
            old(self).in_round == CARRY_PER_ROUND,
        ensures
            *final(self) == old(self).round_over(),
            final(self).goes_on(action),
            final(self).seq <= old(self).seq + 1,
            final(self).sent == echoes_len(final(self).seq as int),
    {
        self.round += 1;
        self.in_round = 0;
        self.back = 0;
        if self.round < CARRY_ROUNDS {
            self.send_next()
        } else {
            self.pings = 1;
            self.awaiting = Awaiting::Held;
            CarryAction::Hold
        }
    }

    /// It is over.
    fn finish(&mut self, why: String) -> (action: CarryAction)
        ensures
            *final(self) == old(self).done(),
            reports(action, why@),
    {
        self.awaiting = Awaiting::Done;
        CarryAction::Finish(Err(why))
    }

    /// Go on from what happened.
    pub fn step(&mut self, event: CarryEvent) -> (action: CarryAction)
        requires
            old(self).wf(),
            old(self).expects(event),
        ensures
            final(self).wf(),
            carries(*old(self), event, *final(self), action),
    {
        let sent = kib(self.sent as u64);
        let sent = sent.as_str();
        match event {
            CarryEvent::Sent => {
                self.awaiting = Awaiting::Spaced;
                CarryAction::Space
            },
            CarryEvent::NotSent(said) => {
                let mut why = joined("the tunnel stopped taking packets after ", sent);
                why.append(": ");
                why.append(said.as_str());
                self.finish(why)
            },
            CarryEvent::Passed => {
                if self.awaiting == Awaiting::Held {
                    self.awaiting = Awaiting::Pong;
                    CarryAction::Probe
                } else if self.in_round < CARRY_PER_ROUND {
                    self.send_next()
                } else {
                    self.awaiting = Awaiting::Replies;
                    CarryAction::Receive { first: true }
                }
            },
            CarryEvent::Came(packet) => {
                if !is_reply(packet.as_slice(), self.inside) {
                    return CarryAction::Receive { first: false };
                }
                self.back += 1;
                self.replies += 1;
                if self.back < CARRY_PER_ROUND {
                    CarryAction::Receive { first: false }
                } else {
                    self.next_round()
                }
            },
            CarryEvent::Closed => self.finish(joined("the tunnel closed after ", sent)),
            CarryEvent::Failed(said) => {
                let why = if self.awaiting == Awaiting::Replies {
                    let mut why = joined("the tunnel failed after ", sent);
                    why.append(": ");
                    why.append(said.as_str());
                    why
                } else if self.awaiting == Awaiting::Alive {
                    joined("DIED after carrying ", sent)
                } else {
                    let ping = decimal(self.pings as u128);
                    let mut why = joined("carried ", sent);
                    why.append(", then failed on ping ");
                    why.append(ping.as_str());
                    why.append(": ");
                    why.append(said.as_str());
                    why
                };
                self.finish(why)
            },
            CarryEvent::TimedOut => {
                if self.awaiting == Awaiting::Replies {
                    if self.back == 0 {
                        self.awaiting = Awaiting::Alive;
                        return CarryAction::Probe;
                    }
                    return self.next_round();
                }
                if self.awaiting == Awaiting::Alive {
                    return self.finish(joined("DIED after carrying ", sent));
                }
                let ping = decimal(self.pings as u128);
                let mut why = joined("carried ", sent);
                why.append(", then no answer to ping ");
                why.append(ping.as_str());
                why.append(" within 5 s");
                self.finish(why)
            },
            CarryEvent::Answered => {
                if self.awaiting == Awaiting::Alive {
                    let mut why = joined("only the target went quiet at ", sent);
                    why.append(" (tunnel alive)");
                    return self.finish(why);
                }
                if self.pings < HOLD_ROUNDS {
                    self.pings += 1;
                    self.awaiting = Awaiting::Held;
                    return CarryAction::Hold;
                }
                let replies = decimal(self.replies as u128);
                let echoes = decimal(self.seq as u128);
                let mut said = joined("carried ", sent);
                said.append(" · ");
                said.append(replies.as_str());
                said.append("/");
                said.append(echoes.as_str());
                said.append(" back · held 2 pings");
                self.awaiting = Awaiting::Done;
                CarryAction::Finish(Ok(said))
            },
        }
    }
}

/// A strategy counts as usable only after everything: every echo of every round was sent, each round
/// brought something back, and every ping was answered.
pub proof fn law_usable_means_carried_and_held(
    before: Carrying,
    event: CarryEvent,
    after: Carrying,
    action: CarryAction,
)
    requires
        before.wf(),
        before.expects(event),
        before.pings > 0 ==> before.round == CARRY_ROUNDS,
        carries(before, event, after, action),
    ensures
        after.pings > 0 ==> after.round == CARRY_ROUNDS,
        action matches CarryAction::Finish(Ok(_)) ==> event is Answered && before.pings
            == HOLD_ROUNDS && before.seq == CARRY_ROUNDS * CARRY_PER_ROUND && before.sent
            == echoes_len(CARRY_ROUNDS * CARRY_PER_ROUND),
        after.round > before.round ==> before.back > 0 || (event is Came),
{
}

/// An echo of the run goes to 1.1.1.1, carries 1200 bytes and the run's mark, and counts with its two
/// headers as 1228 bytes; the next is numbered one higher.
pub proof fn law_each_echo_is_numbered_and_counted(before: Carrying)
    requires
        before.wf(),
        before.round < 8,
        before.in_round < 8,
    ensures
        ({
            let after = before.sending();
            &&& after.seq == before.seq + 1
            &&& after.sent == before.sent + 1228
            &&& after.in_round == before.in_round + 1
            &&& after.round == before.round && after.back == before.back && after.replies
                == before.replies && after.pings == before.pings && after.inside == before.inside
            &&& after.awaiting == Awaiting::Sent
        }),
        target() == seq![1u8, 1, 1, 1],
        filling().len() == 1200,
        forall|i: int| 0 <= i < 1200 ==> #[trigger] filling()[i] == 0x5a,
        forall|action: CarryAction| #[trigger]
            before.sends(action) ==> action is Send && action->Send_0@ == echo_packet(
                before.inside@,
                seq![1u8, 1, 1, 1],
                0x6d71,
                before.seq,
                filling(),
            ),
{
}

/// A round is eight echoes, each waited on before the next; then the replies are waited for. After the
/// eighth round come the pings, and no ninth round.
pub proof fn law_a_round_is_eight_echoes(
    before: Carrying,
    after: Carrying,
    action: CarryAction,
)
    requires
        before.wf(),
    ensures
        carries(before, CarryEvent::Sent, after, action) ==> action is Space && after.awaiting
            == Awaiting::Spaced && after.seq == before.seq && after.sent == before.sent,
        before.awaiting == Awaiting::Spaced && carries(before, CarryEvent::Passed, after, action)
            ==> {
            &&& before.in_round < 8 ==> action is Send && after.seq == before.seq + 1
            &&& before.in_round == 8 ==> action == (CarryAction::Receive { first: true })
                && after.awaiting == Awaiting::Replies && after.seq == before.seq
        },
        before.round < 7 ==> before.round_over().round == before.round + 1
            && before.round_over().in_round == 1 && before.round_over().back == 0
            && before.round_over().awaiting == Awaiting::Sent,
        before.round == 7 ==> before.round_over().round == 8 && before.round_over().in_round == 0
            && before.round_over().pings == 1 && before.round_over().awaiting == Awaiting::Held,
{
}

/// A reply to this run is counted, one of anything else is not; a round is over once all eight came
/// back, or once the time is over and any did. A round that brought back nothing asks the tunnel
/// whether it is there before anything is concluded.
pub proof fn law_replies_decide_a_round(
    before: Carrying,
    packet: Vec<u8>,
    after: Carrying,
    action: CarryAction,
)
    requires
        before.wf(),
        before.awaiting == Awaiting::Replies,
    ensures
        carries(before, CarryEvent::Came(packet), after, action) ==> {
            let reply = echo_reply(packet@, before.inside@, 0x6d71) is Some;
            &&& !reply ==> after == before && action == (CarryAction::Receive { first: false })
            &&& reply ==> after.replies == before.replies + 1
            &&& reply && before.back < 7 ==> after.back == before.back + 1 && after.round
                == before.round && action == (CarryAction::Receive { first: false })
            &&& reply && before.back == 7 ==> after.round == before.round + 1
        },
        carries(before, CarryEvent::TimedOut, after, action) ==> {
            &&& before.back == 0 ==> after.awaiting == Awaiting::Alive && action is Probe
                && after.round == before.round
            &&& before.back > 0 ==> after.round == before.round + 1 && after.replies
                == before.replies
        },
{
}

/// A strategy is usable only where the tunnel answered two pings after all the traffic, and a tunnel
/// that does not answer, or only answers when asked after silence, is not.
pub proof fn law_two_pings_settle_it(before: Carrying, after: Carrying, action: CarryAction)
    requires
        before.wf(),
        before.awaiting == Awaiting::Pong || before.awaiting == Awaiting::Alive,
        carries(before, CarryEvent::Answered, after, action),
    ensures
        before.awaiting == Awaiting::Alive ==> action is Finish && action->Finish_0 is Err,
        before.awaiting == Awaiting::Pong && before.pings == 1 ==> action is Hold && after.pings == 2
            && after.awaiting == Awaiting::Held,
        before.awaiting == Awaiting::Pong && before.pings == 2 ==> action is Finish
            && action->Finish_0 is Ok && after.awaiting == Awaiting::Done,
{
}

/// What ends a run early ends it as a failure: a packet that is not taken, a tunnel that closes or
/// fails, a question that is not answered in time.
pub proof fn law_what_breaks_ends_the_run(
    before: Carrying,
    event: CarryEvent,
    after: Carrying,
    action: CarryAction,
)
    requires
        before.wf(),
        before.expects(event),
        event is NotSent || event is Closed || event is Failed || (event is TimedOut
            && before.awaiting != Awaiting::Replies),
        carries(before, event, after, action),
    ensures
        action is Finish && action->Finish_0 is Err,
        after == (Carrying { awaiting: Awaiting::Done, ..before }),
{
}

/// What held over a carrier is what was opened over it, in order.
pub proof fn law_what_held_is_what_was_opened(
    opened: Seq<(Handshake, Carrier)>,
    strategy: Handshake,
    over: Carrier,
    carrier: Carrier,
)
    ensures
        held_over(Seq::empty(), carrier) == Seq::<Handshake>::empty(),
        over == carrier ==> held_over(opened.push((strategy, over)), carrier) == held_over(
            opened,
            carrier,
        ).push(strategy),
        over != carrier ==> held_over(opened.push((strategy, over)), carrier) == held_over(
            opened,
            carrier,
        ),
{
    assert(opened.push((strategy, over)).drop_last() =~= opened);
}

/// The verdict is about the name where it can be: nothing opened, or the name is not filtered here, or
/// only another name carries, or these strategies do; and then about HTTP/3.
pub proof fn law_the_verdict_follows_what_held(over_h2: Seq<Handshake>, over_h3: Seq<Handshake>)
    ensures
        ({
            let lines = verdict_lines(over_h2, over_h3);
            let named = over_h2.contains(Handshake::Named);
            let fronted_alone = over_h2.len() == 1 && over_h2[0] == Handshake::Fronted;
            &&& over_h2.len() == 0 ==> lines.len() == 2 && lines[0] == NOTHING_OPENED@
            &&& named ==> lines[0] == NOT_FILTERED@ && lines[1] == SETTLED@ + listed(names(over_h2))
            &&& named && over_h2.contains(Handshake::NoSni) ==> lines.len() == 4 && lines[2]
                == NO_SNI_AMONG_THEM@
            &&& named && !over_h2.contains(Handshake::NoSni) ==> lines.len() == 3
            &&& fronted_alone ==> lines.len() == 3 && lines[0] == FRONTED_ONLY@ && lines[1]
                == RUN_FRONTED@
            &&& over_h2.len() > 0 && !named && !fronted_alone ==> lines.len() == 3 && lines[0]
                == CAN_CARRY@ + listed(names(over_h2)) && lines[1] == RUN_ONE_OF_THOSE@
            &&& over_h3.len() == 0 ==> lines.last() == NOTHING_OVER_H3@
            &&& over_h3.len() > 0 ==> lines.last() == "over h3   held with: "@ + listed(
                names(over_h3),
            ) + ". `--transport auto` tries h3 first with the chosen handshake."@
        }),
{
    if over_h2.len() == 1 && over_h2[0] == Handshake::Fronted {
        assert(over_h2 =~= seq![Handshake::Fronted]);
        assert(!over_h2.contains(Handshake::Named));
    }
    if over_h2.contains(Handshake::Named) {
        assert(over_h2.len() > 0);
    }
    assert(seq![Handshake::Fronted].len() == 1 && seq![Handshake::Fronted][0]
        == Handshake::Fronted);
}

/// A text that is filled up is the text and as many spaces as are wanting.
pub proof fn law_a_text_is_filled_with_spaces(text: Seq<char>, width: nat, i: int)
    ensures
        filled(text, width).len() == if text.len() > width {
            text.len()
        } else {
            width
        },
        0 <= i < text.len() ==> filled(text, width)[i] == text[i],
        text.len() <= i < width ==> filled(text, width)[i] == ' ',
{
}

} // verus!
