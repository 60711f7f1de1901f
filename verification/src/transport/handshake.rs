//! How the tunnel's own ClientHello is put on the wire. Experimental.
//!
//! Measured on a filtered link: TCP to the endpoint establishes, the TLS handshake carrying the
//! endpoint's own name is closed with no byte of reply, and the same address under an unfiltered
//! name answers in full. The name in the clear is what is matched: not the address, not the
//! fingerprint.
//!
//! **Two levers, and only two.** This core has an ordinary TCP connection, so what it can vary is
//! which name it sends and where the bytes fall across segment boundaries. Every strategy here is
//! one of the two. Over QUIC only the first lever exists: the ClientHello travels inside the QUIC
//! Initial and there is no stream to cut.
//!
//! The choice belongs to a run, not to a connection; a [`Presented`] holds it.

use vstd::prelude::*;
use vstd::string::StringExecFns;
use crate::text;
use crate::text::{same, split};
use crate::warp::api::CONNECT_SNI;

verus! {

/// An unfiltered Cloudflare name, presented in place of the one the tunnel is really for.
///
/// The endpoint does not read the name, so it costs nothing on the far side and buys the flow a
/// classification that is not acted on.
pub const FRONTED_SNI: &'static str = "www.cloudflare.com";

/// How long the second half of a split ClientHello is held back, in milliseconds.
///
/// A DPI that reassembles a stream usually does so within a window. Waiting past it means the first
/// segment has already been judged, on its own and without the whole name in it, by the time the
/// rest arrives.
pub const SPLIT_DELAY: u64 = 40;

/// How the ClientHello for the tunnel's TLS session is presented.
#[derive(Debug, Clone, Copy, PartialEq, Eq, Structural)]
pub enum Handshake {
    /// The name Cloudflare's own client sends, in one write.
    Named,
    /// No `server_name` extension at all.
    NoSni,
    /// The expected name, cut across a TCP segment boundary inside the name itself.
    Split,
    /// The same cut, with the remainder held back past a reassembly window.
    SplitSlow,
    /// An unfiltered Cloudflare name in place of the tunnel's own, in one write.
    Fronted,
}

/// The name a strategy is written as.
pub open spec fn handshake_name(handshake: Handshake) -> Seq<char> {
    match handshake {
        Handshake::Named => "named"@,
        Handshake::NoSni => "no-sni"@,
        Handshake::Split => "split"@,
        Handshake::SplitSlow => "split-slow"@,
        Handshake::Fronted => "fronted"@,
    }
}

/// The strategy that a name is of.
pub open spec fn handshake_read(written: Seq<char>) -> Option<Handshake> {
    if written == "named"@ {
        Some(Handshake::Named)
    } else if written == "no-sni"@ {
        Some(Handshake::NoSni)
    } else if written == "split"@ {
        Some(Handshake::Split)
    } else if written == "split-slow"@ {
        Some(Handshake::SplitSlow)
    } else if written == "fronted"@ {
        Some(Handshake::Fronted)
    } else {
        None
    }
}

/// Whether a strategy means anything over QUIC.
pub open spec fn rides_quic(handshake: Handshake) -> bool {
    handshake != Handshake::Split && handshake != Handshake::SplitSlow
}

/// What a strategy is written as in one byte.
pub open spec fn handshake_code(handshake: Handshake) -> u8 {
    match handshake {
        Handshake::Named => 0,
        Handshake::NoSni => 1,
        Handshake::Split => 2,
        Handshake::SplitSlow => 3,
        Handshake::Fronted => 4,
    }
}

impl Handshake {
    /// Every strategy, in the order a diagnostic run should try them: the control first, then
    /// cheapest to most disruptive.
    pub const ALL: [Handshake; 5] = [
        Handshake::Named,
        Handshake::NoSni,
        Handshake::Split,
        Handshake::SplitSlow,
        Handshake::Fronted,
    ];

    /// The name this is written as on the command line.
    pub fn name(self) -> (name: &'static str)
        ensures
            name@ == handshake_name(self),
    {
        match self {
            Handshake::Named => "named",
            Handshake::NoSni => "no-sni",
            Handshake::Split => "split",
            Handshake::SplitSlow => "split-slow",
            Handshake::Fronted => "fronted",
        }
    }

    /// One line on what it does, for the diagnostic's own output.
    pub fn describes(self) -> (line: &'static str)
        ensures
            line@ == match self {
                Handshake::Named => "the expected name, in one write"@,
                Handshake::NoSni => "no name at all"@,
                Handshake::Split => "the name, cut across two segments"@,
                Handshake::SplitSlow => "the same cut, second half held back"@,
                Handshake::Fronted => "an unfiltered Cloudflare name instead"@,
            },
    {
        match self {
            Handshake::Named => "the expected name, in one write",
            Handshake::NoSni => "no name at all",
            Handshake::Split => "the name, cut across two segments",
            Handshake::SplitSlow => "the same cut, second half held back",
            Handshake::Fronted => "an unfiltered Cloudflare name instead",
        }
    }

    /// The strategy written as `written`, exactly, or none.
    pub fn parse(written: &str) -> (parsed: Option<Handshake>)
        ensures
            parsed == handshake_read(written@),
            match parsed {
                Some(handshake) => handshake_name(handshake) == written@,
                None => forall|handshake: Handshake| #[trigger]
                    handshake_name(handshake) != written@,
            },
    {
        if same(written, "named") {
            Some(Handshake::Named)
        } else if same(written, "no-sni") {
            Some(Handshake::NoSni)
        } else if same(written, "split") {
            Some(Handshake::Split)
        } else if same(written, "split-slow") {
            Some(Handshake::SplitSlow)
        } else if same(written, "fronted") {
            Some(Handshake::Fronted)
        } else {
            None
        }
    }

    /// Whether this strategy means anything over QUIC. The splits cut TCP segments, and a QUIC
    /// connection has none.
    pub fn works_over_quic(self) -> (works: bool)
        ensures
            works == rides_quic(self),
    {
        match self {
            Handshake::Split => false,
            Handshake::SplitSlow => false,
            _ => true,
        }
    }

    /// The name the ClientHello carries, over either carrier, or `None` for no name at all.
    ///
    /// No name is sent by giving TLS the endpoint's address instead: a literal is forbidden in the
    /// extension, so the extension is left out. The endpoint's public key is pinned and the name
    /// never read, so an address costs nothing.
    pub fn sni(self, presented: &Presented) -> (name: Option<String>)
        ensures
            match (name, sni_under(self, presented.fronted())) {
                (Some(name), Some(said)) => name@ == said,
                (None, None) => true,
                _ => false,
            },
    {
        match self {
            Handshake::NoSni => None,
            Handshake::Fronted => Some(fronted_name(presented)),
            _ => Some(String::from_str(CONNECT_SNI)),
        }
    }

    /// The strategy as one byte.
    pub fn code(self) -> (code: u8)
        ensures
            code == handshake_code(self),
    {
        match self {
            Handshake::Named => 0,
            Handshake::NoSni => 1,
            Handshake::Split => 2,
            Handshake::SplitSlow => 3,
            Handshake::Fronted => 4,
        }
    }

    /// The strategy one byte stands for. Anything unknown sends the name.
    pub fn from_code(code: u8) -> (handshake: Handshake)
        ensures
            code <= 4 ==> handshake_code(handshake) == code,
            code > 4 ==> handshake == Handshake::Named,
    {
        match code {
            1 => Handshake::NoSni,
            2 => Handshake::Split,
            3 => Handshake::SplitSlow,
            4 => Handshake::Fronted,
            _ => Handshake::Named,
        }
    }
}

/// Every strategy round-trips through its written name: no two are written alike, so reading back a
/// written name can give only the strategy that wrote it.
pub proof fn law_names_tell_strategies_apart(a: Handshake, b: Handshake)
    ensures
        handshake_name(a) == handshake_name(b) <==> a == b,
        handshake_code(a) == handshake_code(b) <==> a == b,
{
    reveal_strlit("named");
    reveal_strlit("no-sni");
    reveal_strlit("split");
    reveal_strlit("split-slow");
    reveal_strlit("fronted");
    assert("named"@.len() == 5 && "named"@[0] == 'n');
    assert("no-sni"@.len() == 6);
    assert("split"@.len() == 5 && "split"@[0] == 's');
    assert("split-slow"@.len() == 10);
    assert("fronted"@.len() == 7);
}

/// What a run uses unless the command line says otherwise.
pub const DEFAULT: Handshake = Handshake::Fronted;

/// The strategy a run presents, and the name `fronted` presents when the run was given one.
#[derive(Debug)]
pub struct Presented {
    selected: Handshake,
    fronted: Option<String>,
}

impl Presented {
    /// The strategy in force.
    pub closed spec fn selected(&self) -> Handshake {
        self.selected
    }

    /// The name `fronted` presents.
    pub closed spec fn fronted(&self) -> Seq<char> {
        match self.fronted {
            Some(name) => name@,
            None => FRONTED_SNI@,
        }
    }

    /// What a run starts with.
    pub fn new() -> (presented: Self)
        ensures
            presented.selected() == DEFAULT,
            presented.fronted() == FRONTED_SNI@,
    {
        Presented { selected: DEFAULT, fronted: None }
    }
}

impl Default for Presented {
    fn default() -> (presented: Self)
        ensures
            presented.selected() == DEFAULT,
            presented.fronted() == FRONTED_SNI@,
    {
        Presented::new()
    }
}

/// One label of a DNS name: one to 63 letters, digits, underscores and hyphens, with no hyphen at
/// either end.
pub open spec fn is_label(label: Seq<char>) -> bool {
    &&& 1 <= label.len() <= 63
    &&& label[0] != '-'
    &&& label.last() != '-'
    &&& forall|i: int| 0 <= i < label.len() ==> is_label_char(#[trigger] label[i])
}

/// A character of a DNS label.
pub open spec fn is_label_char(c: char) -> bool {
    ('a' <= c <= 'z') || ('A' <= c <= 'Z') || is_digit(c) || c == '_' || c == '-'
}

/// A decimal digit.
pub open spec fn is_digit(c: char) -> bool {
    '0' <= c <= '9'
}

/// A name without the dot that may end it.
pub open spec fn without_last_dot(name: Seq<char>) -> Seq<char> {
    if name.len() > 0 && name.last() == '.' {
        name.drop_last()
    } else {
        name
    }
}

/// The labels of a name, from the left.
pub open spec fn labels_of(name: Seq<char>) -> Seq<Seq<char>> {
    split(without_last_dot(name), '.')
}

/// Whether a label is a number, as only the last one of an address is.
pub open spec fn is_number(label: Seq<char>) -> bool {
    forall|i: int| 0 <= i < label.len() ==> is_digit(#[trigger] label[i])
}

/// A DNS name: at most 253 characters, labels between dots with one more dot allowed at the end,
/// and a last label that is not a number, which would be an address.
pub open spec fn is_dns_name(name: Seq<char>) -> bool {
    &&& 1 <= name.len() <= 253
    &&& forall|i: int| 0 <= i < labels_of(name).len() ==> is_label(#[trigger] labels_of(name)[i])
    &&& !is_number(labels_of(name).last())
}

/// The name `fronted` presents once another was offered: that one, where it is a DNS name.
pub open spec fn fronted_with(before: Seq<char>, name: Seq<char>) -> Seq<char> {
    if is_dns_name(name) {
        name
    } else {
        before
    }
}

/// The name `fronted` presents after a run of names was offered.
pub open spec fn fronted_after(names: Seq<Seq<char>>) -> Seq<char>
    decreases names.len(),
{
    if names.len() == 0 {
        FRONTED_SNI@
    } else {
        fronted_with(fronted_after(names.drop_last()), names.last())
    }
}

/// The name the ClientHello carries under a strategy, with the name `fronted` presents.
pub open spec fn sni_under(handshake: Handshake, fronted: Seq<char>) -> Option<Seq<char>> {
    match handshake {
        Handshake::NoSni => None,
        Handshake::Fronted => Some(fronted),
        _ => Some(CONNECT_SNI@),
    }
}

/// The tunnel's own name goes out whole or split, none goes out without one, and `fronted` sends the
/// last name it was given that is a DNS name, or its own where it was given none: a refused name
/// changes nothing.
pub proof fn law_the_name_that_is_presented(names: Seq<Seq<char>>, last: int)
    ensures
        ({
            let fronted = fronted_after(names);
            let own = Some("consumer-masque.cloudflareclient.com"@);
            &&& sni_under(Handshake::Named, fronted) == own
            &&& sni_under(Handshake::Split, fronted) == own
            &&& sni_under(Handshake::SplitSlow, fronted) == own
            &&& sni_under(Handshake::NoSni, fronted) is None
            &&& (0 <= last < names.len() && is_dns_name(names[last]) && forall|i: int|
                last < i < names.len() ==> !is_dns_name(#[trigger] names[i])) ==> sni_under(
                Handshake::Fronted,
                fronted,
            ) == Some(names[last])
            &&& (forall|i: int| 0 <= i < names.len() ==> !is_dns_name(#[trigger] names[i]))
                ==> sni_under(Handshake::Fronted, fronted) == Some("www.cloudflare.com"@)
        }),
    decreases names.len(),
{
    if names.len() > 0 {
        let before = names.drop_last();
        assert forall|i: int| 0 <= i < before.len() implies before[i] == #[trigger] names[i] by {}
        law_the_name_that_is_presented(before, last);
    }
}

/// `rustls::pki_types::ServerName::try_from`: whether it reads a text as a DNS name, rather than as
/// an address or as nothing.
#[verifier::external_body]
fn reads_as_dns_name(name: &str) -> (is: bool)
    ensures
        is == is_dns_name(name@),
{
    match rustls::pki_types::ServerName::try_from(name) {
        Ok(rustls::pki_types::ServerName::DnsName(_)) => true,
        _ => false,
    }
}

/// Change the name the `fronted` strategy uses.
///
/// Refused when it is not a DNS name: an address is forbidden there, and `no-sni` is the strategy
/// for sending none. A refused name leaves what was in place.
pub fn set_fronted_name(presented: &mut Presented, name: &str) -> (set: Result<(), String>)
    ensures
        final(presented).selected() == old(presented).selected(),
        final(presented).fronted() == fronted_with(old(presented).fronted(), name@),
        match set {
            Ok(()) => is_dns_name(name@),
            Err(said) => !is_dns_name(name@) && said@ == "`"@ + name@ + "` is not a DNS name"@,
        },
{
    if !reads_as_dns_name(name) {
        return Err(text::between("`", name, "` is not a DNS name"));
    }
    presented.fronted = Some(String::from_str(name));
    Ok(())
}

/// The name the `fronted` strategy uses.
pub fn fronted_name(presented: &Presented) -> (name: String)
    ensures
        name@ == presented.fronted(),
{
    match &presented.fronted {
        Some(name) => name.clone(),
        None => String::from_str(FRONTED_SNI),
    }
}

/// Choose the strategy every later connection uses.
pub fn select(presented: &mut Presented, handshake: Handshake)
    ensures
        final(presented).selected() == handshake,
        final(presented).fronted() == old(presented).fronted(),
{
    presented.selected = handshake;
}

/// The strategy in force.
pub fn selected(presented: &Presented) -> (handshake: Handshake)
    ensures
        handshake == presented.selected(),
{
    presented.selected
}

// ── cutting the first write ─────────────────────────────────────────────────────────────────────

/// Whether `needle` stands in `buffer` at `at`.
pub open spec fn occurs_at(buffer: Seq<u8>, needle: Seq<u8>, at: int) -> bool {
    0 <= at && at + needle.len() <= buffer.len() && buffer.subrange(at, at + needle.len()) == needle
}

/// Where `needle` first stands in `buffer`, from `from` on, or -1.
pub open spec fn first_occurrence(buffer: Seq<u8>, needle: Seq<u8>, from: int) -> int
    decreases buffer.len() - from,
{
    if from < 0 || from + needle.len() > buffer.len() || needle.len() == 0 {
        -1
    } else if occurs_at(buffer, needle, from) {
        from
    } else {
        first_occurrence(buffer, needle, from + 1)
    }
}

/// Where the first write stops: the middle of the name when it is there, and the middle of the
/// buffer when it is not.
pub open spec fn cut(buffer: Seq<u8>, needle: Seq<u8>) -> int {
    let found = first_occurrence(buffer, needle, 0);
    if found >= 0 {
        found + needle.len() as int / 2
    } else {
        buffer.len() as int / 2
    }
}

fn occurs(buffer: &[u8], needle: &[u8], at: usize) -> (found: bool)
    requires
        at + needle.len() <= buffer.len(),
    ensures
        found == occurs_at(buffer@, needle@, at as int),
{
    let ghost window = buffer@.subrange(at as int, at + needle@.len());
    let mut i: usize = 0;
    while i < needle.len()
        invariant
            i <= needle.len(),
            at + needle.len() <= buffer.len(),
            window == buffer@.subrange(at as int, at + needle@.len()),
            forall|j: int| 0 <= j < i ==> window[j] == needle@[j],
        decreases needle.len() - i,
    {
        if buffer[at + i] != needle[i] {
            assert(window[i as int] != needle@[i as int]);
            return false;
        }
        i += 1;
    }
    assert(window =~= needle@);
    true
}

/// Where to stop the first write so the name straddles the boundary.
///
/// The middle of the name when it is there to find, and the middle of the buffer when it is not: a
/// ClientHello without the name in the clear is one there is nothing to hide in, and half a buffer
/// is still a cut.
pub fn cut_point(buffer: &[u8], needle: &[u8]) -> (at: Option<usize>)
    requires
        needle@.len() > 0,
    ensures
        ({
            let wanted = cut(buffer@, needle@);
            at == if 0 < wanted < buffer@.len() {
                Some(wanted as usize)
            } else {
                None
            }
        }),
{
    let mut at: usize = buffer.len() / 2;
    let mut from: usize = 0;
    while needle.len() <= buffer.len() && from <= buffer.len() - needle.len()
        invariant_except_break
            needle@.len() > 0,
            from <= buffer.len(),
            at == buffer.len() / 2,
            first_occurrence(buffer@, needle@, 0) == first_occurrence(
                buffer@,
                needle@,
                from as int,
            ),
        ensures
            at == cut(buffer@, needle@),
        decreases buffer.len() - from,
    {
        if occurs(buffer, needle, from) {
            at = from + needle.len() / 2;
            break;
        }
        from += 1;
    }
    if at > 0 && at < buffer.len() {
        Some(at)
    } else {
        None
    }
}

/// The cut lands inside the name: what goes out first cannot carry the whole of it anywhere.
pub proof fn law_the_first_segment_never_carries_the_name(
    buffer: Seq<u8>,
    needle: Seq<u8>,
    at: int,
)
    requires
        needle.len() > 0,
        first_occurrence(buffer, needle, 0) >= 0,
    ensures
        !occurs_at(buffer.take(cut(buffer, needle)), needle, at),
        first_occurrence(buffer, needle, 0) <= cut(buffer, needle) < buffer.len(),
{
    let found = first_occurrence(buffer, needle, 0);
    lemma_first_occurrence(buffer, needle, 0, at);
    if occurs_at(buffer.take(cut(buffer, needle)), needle, at) {
        assert(buffer.take(cut(buffer, needle)).subrange(at, at + needle.len())
            =~= buffer.subrange(at, at + needle.len()));
        assert(occurs_at(buffer, needle, at));
    }
}

proof fn lemma_first_occurrence(buffer: Seq<u8>, needle: Seq<u8>, from: int, at: int)
    requires
        from >= 0,
        needle.len() > 0,
    ensures
        ({
            let found = first_occurrence(buffer, needle, from);
            &&& found >= 0 ==> found >= from && occurs_at(buffer, needle, found)
            &&& at >= from && occurs_at(buffer, needle, at) ==> 0 <= found <= at
        }),
    decreases buffer.len() - from,
{
    if from + needle.len() <= buffer.len() && !occurs_at(buffer, needle, from) {
        lemma_first_occurrence(buffer, needle, from + 1, at);
    }
}

/// How far a split of the first write has got.
#[derive(Debug, Clone, Copy, PartialEq, Eq, Structural)]
pub enum SplitState {
    /// Nothing written yet.
    Waiting,
    /// The first segment is out; the rest is held until the delay elapses.
    Holding,
    /// Done: every later write is ordinary.
    Through,
}

/// What to do with a write.
#[derive(Debug, Clone, Copy, PartialEq, Eq, Structural)]
pub enum WriteStep {
    /// Write all of it.
    All,
    /// Write this many bytes of it and tell the caller so; it comes back with the rest. Two
    /// segments on the wire, and no buffer of our own to own.
    First(usize),
    /// Wait for the delay to elapse, then write all of it.
    AfterDelay,
}

/// Where to cut the first write, and how long to wait before the rest of it.
///
/// It exists for one ClientHello but stays under the connection for its whole life, so once it is
/// through it has to be out of the way.
#[derive(Debug)]
pub struct SplitPlan {
    /// The name to cut inside. Cutting at an arbitrary offset can leave the whole name in the first
    /// segment, which is the one thing this must not do.
    needle: &'static str,
    /// Milliseconds to hold the rest back, or none.
    delay: Option<u64>,
    state: SplitState,
}

impl SplitPlan {
    /// The bytes of the name the cut lands inside.
    pub closed spec fn needle(&self) -> Seq<u8> {
        vstd::utf8::encode_utf8(self.needle@)
    }

    pub closed spec fn delay(&self) -> Option<u64> {
        self.delay
    }

    pub closed spec fn state(&self) -> SplitState {
        self.state
    }

    /// There is a name to cut inside.
    pub closed spec fn wf(&self) -> bool {
        self.needle().len() > 0
    }

    /// The plan a strategy calls for, or none for a strategy that does not cut.
    pub fn wrapping(handshake: Handshake) -> (plan: Option<SplitPlan>)
        ensures
            plan is Some <==> !rides_quic(handshake),
            match plan {
                Some(plan) => {
                    &&& plan.wf()
                    &&& plan.needle() == vstd::utf8::encode_utf8(CONNECT_SNI@)
                    &&& plan.state() == SplitState::Waiting
                    &&& plan.delay() == if handshake == Handshake::SplitSlow {
                        Some(SPLIT_DELAY)
                    } else {
                        None
                    }
                },
                None => true,
            },
    {
        proof {
            reveal_strlit("consumer-masque.cloudflareclient.com");
            assert(CONNECT_SNI@.len() > 0);
            vstd::utf8::encode_utf8_first_scalar(CONNECT_SNI@);
        }
        match handshake {
            Handshake::Split => Some(
                SplitPlan { needle: CONNECT_SNI, delay: None, state: SplitState::Waiting },
            ),
            Handshake::SplitSlow => Some(
                SplitPlan {
                    needle: CONNECT_SNI,
                    delay: Some(SPLIT_DELAY),
                    state: SplitState::Waiting,
                },
            ),
            _ => None,
        }
    }

    /// How long the rest is held back, in milliseconds, once the first segment is out.
    pub fn hold_for(&self) -> (delay: Option<u64>)
        ensures
            delay == self.delay(),
    {
        self.delay
    }

    /// Whether there is nothing left to intercept, so that vectored writes can go straight through.
    pub fn is_settled(&self) -> (settled: bool)
        ensures
            settled == (self.state() == SplitState::Through),
    {
        match self.state {
            SplitState::Through => true,
            _ => false,
        }
    }

    /// What to do with a write of `buffer`.
    pub fn next_write(&self, buffer: &[u8]) -> (step: WriteStep)
        requires
            self.wf(),
        ensures
            step == match self.state() {
                SplitState::Through => WriteStep::All,
                SplitState::Holding => WriteStep::AfterDelay,
                SplitState::Waiting => {
                    let at = cut(buffer@, self.needle());
                    if 0 < at < buffer@.len() {
                        WriteStep::First(at as usize)
                    } else {
                        WriteStep::All
                    }
                },
            },
    {
        match self.state {
            SplitState::Through => WriteStep::All,
            SplitState::Holding => WriteStep::AfterDelay,
            SplitState::Waiting => match cut_point(buffer, self.needle.as_bytes()) {
                Some(at) => WriteStep::First(at),
                None => WriteStep::All,
            },
        }
    }

    /// Take in that a step has been carried out: a cut with a delay holds the rest back, and
    /// everything else is the end of the plan.
    pub fn wrote(&mut self, step: WriteStep)
        requires
            old(self).wf(),
        ensures
            final(self).wf(),
            final(self).needle() == old(self).needle(),
            final(self).delay() == old(self).delay(),
            final(self).state() == match step {
                WriteStep::First(_) => if old(self).delay() is Some {
                    SplitState::Holding
                } else {
                    SplitState::Through
                },
                _ => SplitState::Through,
            },
    {
        self.state = match step {
            WriteStep::First(_) => match self.delay {
                Some(_) => SplitState::Holding,
                None => SplitState::Through,
            },
            _ => SplitState::Through,
        };
    }
}

/// A strategy is read back from the name it is written as, and nothing else is read as one.
pub proof fn law_a_strategy_is_read_back(handshake: Handshake, written: Seq<char>)
    ensures
        handshake_read(handshake_name(handshake)) == Some(handshake),
        handshake_read(written) == Some(handshake) ==> written == handshake_name(handshake),
{
    law_names_tell_strategies_apart(Handshake::Named, handshake);
    law_names_tell_strategies_apart(Handshake::NoSni, handshake);
    law_names_tell_strategies_apart(Handshake::Split, handshake);
    law_names_tell_strategies_apart(Handshake::SplitSlow, handshake);
    law_names_tell_strategies_apart(Handshake::Fronted, handshake);
}

/// The first write stops in the middle of the name, at the first place the name stands, and in the
/// middle of the buffer where it stands nowhere.
pub proof fn law_the_cut_is_in_the_middle(
    before: Seq<u8>,
    name: Seq<u8>,
    after: Seq<u8>,
    other: Seq<u8>,
)
    requires
        name.len() > 0,
    ensures
        (forall|at: int| 0 <= at < before.len() ==> !occurs_at(before + name + after, name, at))
            ==> cut(before + name + after, name) == before.len() + name.len() / 2,
        (forall|at: int| 0 <= at < other.len() ==> !occurs_at(other, name, at)) ==> cut(other, name)
            == other.len() / 2,
{
    let buffer = before + name + after;
    let at = before.len() as int;
    assert(buffer.subrange(at, at + name.len()) =~= name);
    assert(occurs_at(buffer, name, at));
    lemma_first_occurrence(buffer, name, 0, at);
    lemma_first_occurrence(other, name, 0, 0);
    lemma_occurrence_inside(buffer, name, 0);
    lemma_occurrence_inside(other, name, 0);
}

proof fn lemma_occurrence_inside(buffer: Seq<u8>, needle: Seq<u8>, from: int)
    requires
        from >= 0,
        needle.len() > 0,
    ensures
        first_occurrence(buffer, needle, from) >= 0 ==> occurs_at(
            buffer,
            needle,
            first_occurrence(buffer, needle, from),
        ) && first_occurrence(buffer, needle, from) < buffer.len(),
    decreases buffer.len() - from,
{
    if from + needle.len() <= buffer.len() && !occurs_at(buffer, needle, from) {
        lemma_occurrence_inside(buffer, needle, from + 1);
    }
}

/// A name is a DNS name by its labels: made of labels of 1 to 63 letters, digits, hyphens and
/// underscores, none with a hyphen at an end, and the last not of digits alone. A dot behind it makes
/// no difference but to its length, which is at most 253.
pub proof fn law_a_name_is_made_of_labels(labels: Seq<Seq<char>>)
    requires
        labels.len() > 0,
        forall|i: int|
            0 <= i < labels.len() ==> crate::text::laws::free_of(#[trigger] labels[i], '.'),
        labels.last().len() > 0,
    ensures
        ({
            let name = crate::text::laws::strung(labels, '.');
            let fits = (forall|i: int|
                0 <= i < labels.len() ==> 1 <= (#[trigger] labels[i]).len() <= 63 && labels[i][0]
                    != '-' && labels[i].last() != '-') && (forall|i: int, k: int|
                #![trigger labels[i][k]]
                0 <= i < labels.len() && 0 <= k < labels[i].len() ==> {
                    let n = labels[i][k] as int;
                    n == 45 || n == 95 || 48 <= n <= 57 || 65 <= n <= 90 || 97 <= n <= 122
                }) && (exists|k: int|
                0 <= k < labels.last().len() && !(48 <= (#[trigger] labels.last()[k]) as int
                    <= 57));
            &&& is_dns_name(name) <==> fits && name.len() <= 253
            &&& is_dns_name(name.push('.')) <==> fits && name.len() <= 252
        }),
{
    let name = crate::text::laws::strung(labels, '.');
    crate::text::laws::lemma_split_strung(labels, '.');
    let last = labels.last();
    assert(name.len() >= last.len() && name.last() == last.last()) by {
        if labels.len() == 1 {
            assert(labels[0] == last);
        }
    }
    assert(crate::text::laws::free_of(labels[labels.len() - 1], '.'));
    assert(last[last.len() - 1] != '.');
    assert(without_last_dot(name) == name);
    assert(without_last_dot(name.push('.')) =~= name);
    assert(labels_of(name) == labels);
    assert(labels_of(name.push('.')) == labels);
    assert((forall|i: int| 0 <= i < labels.len() ==> is_label(#[trigger] labels[i])) ==> forall|
        i: int,
        k: int,
    |
        #![trigger labels[i][k]]
        0 <= i < labels.len() && 0 <= k < labels[i].len() ==> is_label_char(labels[i][k]));
}

} // verus!
