//! What the command line said.
//!
//! Named options rather than positions, because this is the line an application writes: a position
//! is easy to get subtly wrong and impossible to read back in a log.

use vstd::prelude::*;
use vstd::string::{StrSliceExecFns, StringExecFns};
use crate::address::written::{parse_socket, socket_written};
use crate::address::SocketAddr;
use crate::log::{level_read, Level};
use crate::text::{
    between, decimal, digits, joined, lower, number_written, parse_number, same, texts, trimmed,
};
use crate::transport::carrier::{choice_read, Choice};
use crate::transport::handshake::{handshake_read, rides_quic, Handshake};
use crate::tun::prefixes::{Prefix, Prefixes};
use crate::tun::{parse_prefix, prefix_complaint, prefix_written, NoPrefix};

verus! {

/// Where packets go when the command names no targets: the resolver that also answers a trace page,
/// and so says which site the exit sits at.
pub const DEFAULT_TARGET: &'static str = "1.1.1.1/32";

/// The MTU given to the adapter.
///
/// Every packet leaving it is wrapped, in a QUIC datagram over HTTP/3, in a capsule, TLS and TCP
/// over HTTP/2. 1280 is the smallest MTU a link is allowed to have at all, so it fits under any path
/// worth serving.
pub const TUN_MTU: u32 = 1280;

/// The options.
#[derive(Debug)]
pub struct Options {
    pub identity: String,
    pub wintun: Option<String>,
    pub targets: Vec<String>,
    /// Where the resolver listens, when there is to be one.
    pub dns_listen: Option<SocketAddr>,
    /// How much is said from the start. The control interface can change it later.
    pub log_level: Option<Level>,
    /// Which ClientHello the tunnel's own TLS session presents.
    pub handshake: Option<Handshake>,
    /// The name `fronted` presents in place of its default.
    pub sni: Option<String>,
    /// Which carrier the tunnel rides. Absent is `auto`: HTTP/3, and HTTP/2 when it does not open.
    pub transport: Option<Choice>,
    /// The adapter's MTU. Absent means [`TUN_MTU`].
    pub mtu: Option<u32>,
}

/// What can be asked for.
#[derive(Debug, Clone, Copy, PartialEq, Eq, Structural)]
pub enum Command {
    /// Print the version and exit.
    Version,
    /// Register a device, or report the one already registered.
    Register,
    /// Open the tunnel and resolve a name through it.
    Probe,
    /// Bring the adapter up and carry packets until stopped.
    Up,
    /// Leave the machine resolving names as it did, and exit.
    Names,
    /// Try every ClientHello strategy against the endpoint and report.
    Handshake,
}

/// The command that a word is of.
pub open spec fn command_read(word: Seq<char>) -> Option<Command> {
    if word == "version"@ {
        Some(Command::Version)
    } else if word == "register"@ {
        Some(Command::Register)
    } else if word == "probe"@ {
        Some(Command::Probe)
    } else if word == "up"@ {
        Some(Command::Up)
    } else if word == "handshake"@ {
        Some(Command::Handshake)
    } else if word == "names"@ {
        Some(Command::Names)
    } else {
        None
    }
}

impl Command {
    /// The command that a word is of, or none.
    pub fn parse(word: &str) -> (command: Option<Command>)
        ensures
            command == command_read(word@),
    {
        if same(word, "version") {
            Some(Command::Version)
        } else if same(word, "register") {
            Some(Command::Register)
        } else if same(word, "probe") {
            Some(Command::Probe)
        } else if same(word, "up") {
            Some(Command::Up)
        } else if same(word, "handshake") {
            Some(Command::Handshake)
        } else if same(word, "names") {
            Some(Command::Names)
        } else {
            None
        }
    }
}

/// A command line as plain values.
pub ghost struct Said {
    pub command: Option<Seq<char>>,
    pub identity: Seq<char>,
    pub wintun: Option<Seq<char>>,
    pub targets: Seq<Seq<char>>,
    pub dns_listen: Option<SocketAddr>,
    pub log_level: Option<Level>,
    pub handshake: Option<Handshake>,
    pub sni: Option<Seq<char>>,
    pub transport: Option<Choice>,
    pub mtu: Option<u32>,
}

/// A text that may be there, as characters.
pub open spec fn text_in(text: Option<String>) -> Option<Seq<char>> {
    match text {
        Some(text) => Some(text@),
        None => None,
    }
}

/// A command and options as plain values.
pub open spec fn said(command: Option<Seq<char>>, options: Options) -> Said {
    Said {
        command,
        identity: options.identity@,
        wintun: text_in(options.wintun),
        targets: texts(options.targets@),
        dns_listen: options.dns_listen,
        log_level: options.log_level,
        handshake: options.handshake,
        sni: text_in(options.sni),
        transport: options.transport,
        mtu: options.mtu,
    }
}

/// A command line that says nothing.
pub open spec fn nothing_said() -> Said {
    Said {
        command: None,
        identity: "identity.json"@,
        wintun: None,
        targets: Seq::empty(),
        dns_listen: None,
        log_level: None,
        handshake: None,
        sni: None,
        transport: None,
        mtu: None,
    }
}

/// Whether an argument is an option, which has its value behind it.
pub open spec fn is_option(argument: Seq<char>) -> bool {
    ||| argument == "--identity"@
    ||| argument == "--wintun"@
    ||| argument == "--target"@
    ||| argument == "--log-level"@
    ||| argument == "--handshake"@
    ||| argument == "--sni"@
    ||| argument == "--transport"@
    ||| argument == "--mtu"@
    ||| argument == "--dns-listen"@
}

/// The MTU a text asks for, or what is said about a text that asks for none.
pub open spec fn mtu_read(value: Seq<char>) -> Result<u32, Seq<char>> {
    match number_written(value, u32::MAX as int) {
        None => Err("`"@ + value + "` is not a number"@),
        // The floor is the one every IPv6 link is required to carry; below it the adapter is not a
        // usable link at all, whatever the tunnel would accept.
        Some(mtu) => if 1280 <= mtu <= 9000 {
            Ok(mtu as u32)
        } else {
            Err(digits(mtu as nat) + " is outside 1280..=9000"@)
        },
    }
}

/// What has been said once an option and its value have been read, or what is said about a value
/// that does not do.
pub open spec fn given(before: Said, option: Seq<char>, value: Seq<char>) -> Result<
    Said,
    Seq<char>,
> {
    if option == "--identity"@ {
        Ok(Said { identity: value, ..before })
    } else if option == "--wintun"@ {
        Ok(Said { wintun: Some(value), ..before })
    } else if option == "--target"@ {
        Ok(Said { targets: before.targets.push(value), ..before })
    } else if option == "--log-level"@ {
        match level_read(lower(trimmed(value))) {
            None => Err("`"@ + value + "` is not a level"@),
            Some(level) => Ok(Said { log_level: Some(level), ..before }),
        }
    } else if option == "--handshake"@ {
        match handshake_read(value) {
            None => Err("`"@ + value + "` is not a handshake strategy"@),
            Some(handshake) => Ok(Said { handshake: Some(handshake), ..before }),
        }
    } else if option == "--sni"@ {
        Ok(Said { sni: Some(value), ..before })
    } else if option == "--transport"@ {
        match choice_read(value) {
            None => Err("`"@ + value + "` is not auto, h3 or h2"@),
            Some(choice) => Ok(Said { transport: Some(choice), ..before }),
        }
    } else if option == "--mtu"@ {
        match mtu_read(value) {
            Err(complaint) => Err(complaint),
            Ok(mtu) => Ok(Said { mtu: Some(mtu), ..before }),
        }
    } else {
        match socket_written(value) {
            None => Err("`"@ + value + "` is not an address and port"@),
            Some(socket) => Ok(Said { dns_listen: Some(socket), ..before }),
        }
    }
}

/// What a line says from an argument on, or what is said about one that cannot be read.
pub open spec fn read_from(before: Said, line: Seq<Seq<char>>, from: int) -> Result<
    Said,
    Seq<char>,
>
    decreases line.len() - from,
{
    if !(0 <= from < line.len()) {
        Ok(before)
    } else if is_option(line[from]) {
        if from + 1 >= line.len() {
            Err(line[from] + " needs a value after it"@)
        } else {
            match given(before, line[from], line[from + 1]) {
                Err(complaint) => Err(complaint),
                Ok(next) => read_from(next, line, from + 2),
            }
        }
    } else if line[from].len() > 0 && line[from][0] == '-' {
        Err("unknown option: "@ + line[from])
    } else if before.command is None {
        read_from(Said { command: Some(line[from]), ..before }, line, from + 1)
    } else {
        Err("unexpected argument: "@ + line[from])
    }
}

/// Whether a line asks for a strategy that cuts TCP segments where there are none.
pub open spec fn cuts_nothing(said: Said) -> bool {
    said.transport == Some(Choice::H3) && said.handshake is Some && !rides_quic(said.handshake->0)
}

/// Whether a line names what `fronted` presents beside another strategy.
pub open spec fn names_nothing(said: Said) -> bool {
    said.sni is Some && said.handshake is Some && said.handshake != Some(Handshake::Fronted)
}

/// What is said about a strategy that cuts TCP segments where there are none.
pub const NOTHING_TO_CUT: &'static str =
    "the split strategies cut TCP segments and have nothing to cut over h3";

/// What is said about a name that would change nothing.
pub const NAME_MEANS_NOTHING: &'static str =
    "--sni names what `fronted` presents; it means nothing beside another handshake";

/// What a whole line says, or what is said about one that does not do.
pub open spec fn line_read(line: Seq<Seq<char>>) -> Result<Said, Seq<char>> {
    match read_from(nothing_said(), line, 0) {
        Err(complaint) => Err(complaint),
        Ok(said) => if cuts_nothing(said) {
            Err(NOTHING_TO_CUT@)
        } else if names_nothing(said) {
            Err(NAME_MEANS_NOTHING@)
        } else if said.command is None {
            Ok(Said { command: Some("probe"@), ..said })
        } else {
            Ok(said)
        },
    }
}

/// Whether an argument is an option, which has its value behind it.
fn takes_value(argument: &str) -> (takes: bool)
    ensures
        takes == is_option(argument@),
{
    same(argument, "--identity") || same(argument, "--wintun") || same(argument, "--target")
        || same(argument, "--log-level") || same(argument, "--handshake") || same(
        argument,
        "--sni",
    ) || same(argument, "--transport") || same(argument, "--mtu") || same(
        argument,
        "--dns-listen",
    )
}

/// Whether an argument starts as an option does.
fn is_flag(argument: &str) -> (flag: bool)
    ensures
        flag == (argument@.len() > 0 && argument@[0] == '-'),
{
    argument.unicode_len() > 0 && argument.get_char(0) == '-'
}

impl Options {
    /// The adapter's MTU.
    pub fn adapter_mtu(&self) -> (mtu: u32)
        ensures
            mtu == match self.mtu {
                Some(mtu) => mtu,
                None => TUN_MTU,
            },
    {
        match self.mtu {
            Some(mtu) => mtu,
            None => TUN_MTU,
        }
    }

    /// Read one option and its value.
    fn give(&mut self, option: &str, value: String) -> (done: Result<(), String>)
        ensures
            forall|command: Option<Seq<char>>|
                match done {
                    Ok(_) => #[trigger] given(said(command, *old(self)), option@, value@) == Ok::<
                        Said,
                        Seq<char>,
                    >(said(command, *final(self))),
                    Err(complaint) => given(said(command, *old(self)), option@, value@) == Err::<
                        Said,
                        Seq<char>,
                    >(complaint@),
                },
    {
        if same(option, "--identity") {
            self.identity = value;
        } else if same(option, "--wintun") {
            self.wintun = Some(value);
        } else if same(option, "--target") {
            let ghost before = self.targets@;
            self.targets.push(value);
            assert(texts(self.targets@) =~= texts(before).push(value@));
        } else if same(option, "--log-level") {
            match Level::parse(value.as_str()) {
                None => return Err(between("`", value.as_str(), "` is not a level")),
                Some(level) => self.log_level = Some(level),
            }
        } else if same(option, "--handshake") {
            match Handshake::parse(value.as_str()) {
                None => return Err(between("`", value.as_str(), "` is not a handshake strategy")),
                Some(handshake) => self.handshake = Some(handshake),
            }
        } else if same(option, "--sni") {
            self.sni = Some(value);
        } else if same(option, "--transport") {
            match Choice::parse(value.as_str()) {
                None => return Err(between("`", value.as_str(), "` is not auto, h3 or h2")),
                Some(choice) => self.transport = Some(choice),
            }
        } else if same(option, "--mtu") {
            match parse_number(value.as_str(), 0xffff_ffff) {
                None => return Err(between("`", value.as_str(), "` is not a number")),
                Some(mtu) => {
                    if !(1280 <= mtu && mtu <= 9000) {
                        let asked = decimal(mtu as u128);
                        return Err(joined(asked.as_str(), " is outside 1280..=9000"));
                    }
                    self.mtu = Some(mtu as u32);
                },
            }
        } else {
            match parse_socket(value.as_str()) {
                None => return Err(between("`", value.as_str(), "` is not an address and port")),
                Some(socket) => self.dns_listen = Some(socket),
            }
        }
        Ok(())
    }

    /// Read a command line: the command, `probe` where there is none, and the options.
    ///
    /// A line that asks for two things that do not go together is refused rather than quietly
    /// overridden: a run that asked for both would otherwise measure something other than what it
    /// asked for.
    pub fn parse(args: &Vec<String>) -> (parsed: Result<(String, Options), String>)
        ensures
            match parsed {
                Ok((command, options)) => line_read(texts(args@)) == Ok::<Said, Seq<char>>(
                    said(Some(command@), options),
                ),
                Err(complaint) => line_read(texts(args@)) == Err::<Said, Seq<char>>(complaint@),
            },
    {
        let ghost line = texts(args@);
        let mut command: Option<String> = None;
        let mut options = Options {
            identity: String::from_str("identity.json"),
            wintun: None,
            targets: Vec::new(),
            dns_listen: None,
            log_level: None,
            handshake: None,
            sni: None,
            transport: None,
            mtu: None,
        };
        assert(texts(options.targets@) =~= Seq::empty());
        let mut at: usize = 0;
        while at < args.len()
            invariant
                at <= args@.len(),
                line == texts(args@),
                read_from(nothing_said(), line, 0) == read_from(
                    said(text_in(command), options),
                    line,
                    at as int,
                ),
            decreases args@.len() - at,
        {
            let argument = args[at].as_str();
            if takes_value(argument) {
                if at + 1 >= args.len() {
                    return Err(joined(argument, " needs a value after it"));
                }
                assert(line[at + 1] == args@[at + 1]@);
                if let Err(complaint) = options.give(argument, args[at + 1].clone()) {
                    return Err(complaint);
                }
                at += 2;
            } else if is_flag(argument) {
                return Err(joined("unknown option: ", argument));
            } else if command.is_none() {
                command = Some(args[at].clone());
                at += 1;
            } else {
                return Err(joined("unexpected argument: ", argument));
            }
        }
        if let Some(handshake) = options.handshake {
            let over_h3 = match options.transport {
                Some(Choice::H3) => true,
                _ => false,
            };
            if over_h3 && !handshake.works_over_quic() {
                return Err(String::from_str(NOTHING_TO_CUT));
            }
            if options.sni.is_some() && handshake != Handshake::Fronted {
                return Err(String::from_str(NAME_MEANS_NOTHING));
            }
        }
        let command = match command {
            Some(command) => command,
            None => String::from_str("probe"),
        };
        Ok((command, options))
    }
}

/// The prefixes that texts ask for, or what is said about the first that asks for none.
pub open spec fn prefixes_read(texts: Seq<Seq<char>>) -> Result<Set<Prefix>, Seq<char>>
    decreases texts.len(),
{
    if texts.len() == 0 {
        Ok(Set::empty())
    } else {
        match prefixes_read(texts.drop_last()) {
            Err(complaint) => Err(complaint),
            Ok(before) => match prefix_written(texts.last()) {
                Err(problem) => Err(prefix_complaint(texts.last(), problem)),
                Ok(prefix) => Ok(before.insert(prefix)),
            },
        }
    }
}

/// Once a text asks for none, what follows changes nothing.
proof fn lemma_first_complaint(texts: Seq<Seq<char>>, n: int)
    requires
        0 <= n <= texts.len(),
        prefixes_read(texts.take(n)) is Err,
    ensures
        prefixes_read(texts) == prefixes_read(texts.take(n)),
    decreases texts.len(),
{
    if n < texts.len() {
        assert(texts.drop_last().take(n) =~= texts.take(n));
        lemma_first_complaint(texts.drop_last(), n);
    } else {
        assert(texts.take(n) =~= texts);
    }
}

/// The prefixes that texts ask for. The same one twice is one.
pub fn read_prefixes(written: &Vec<String>) -> (prefixes: Result<Prefixes, String>)
    ensures
        match prefixes {
            Ok(prefixes) => prefixes.wf() && prefixes_read(texts(written@)) == Ok::<
                Set<Prefix>,
                Seq<char>,
            >(prefixes@),
            Err(complaint) => prefixes_read(texts(written@)) == Err::<Set<Prefix>, Seq<char>>(
                complaint@,
            ),
        },
{
    let ghost all = texts(written@);
    let mut prefixes = Prefixes::new();
    let mut at: usize = 0;
    assert(all.take(0) =~= Seq::empty());
    while at < written.len()
        invariant
            at <= written@.len(),
            all == texts(written@),
            prefixes.wf(),
            prefixes_read(all.take(at as int)) == Ok::<Set<Prefix>, Seq<char>>(prefixes@),
        decreases written@.len() - at,
    {
        proof {
            assert(all.take(at + 1).drop_last() =~= all.take(at as int));
            assert(all.take(at + 1).last() == written@[at as int]@);
        }
        match parse_prefix(written[at].as_str()) {
            Err(complaint) => {
                proof {
                    lemma_first_complaint(all, at + 1);
                }
                return Err(complaint);
            },
            Ok(prefix) => {
                prefixes.insert(prefix);
            },
        }
        at += 1;
    }
    assert(all.take(at as int) =~= all);
    Ok(prefixes)
}

/// The prefixes to route into the tunnel, as written on the command line: the default one where
/// none are.
pub fn parse_targets(raw: &Vec<String>) -> (targets: Result<Prefixes, String>)
    ensures
        ({
            let asked = if raw@.len() == 0 {
                seq![DEFAULT_TARGET@]
            } else {
                texts(raw@)
            };
            match targets {
                Ok(targets) => targets.wf() && prefixes_read(asked) == Ok::<
                    Set<Prefix>,
                    Seq<char>,
                >(targets@),
                Err(complaint) => prefixes_read(asked) == Err::<Set<Prefix>, Seq<char>>(
                    complaint@,
                ),
            }
        }),
{
    if raw.len() == 0 {
        let mut default: Vec<String> = Vec::new();
        default.push(String::from_str(DEFAULT_TARGET));
        assert(texts(default@) =~= seq![DEFAULT_TARGET@]);
        return read_prefixes(&default);
    }
    read_prefixes(raw)
}

/// Where to load the driver's library from: what was asked for, or the copy beside the binary, each
/// with whether it is a file.
///
/// The option exists so that a package which already ships the library somewhere can point at that
/// copy rather than carrying a second one.
pub fn wintun_path(asked: Option<&str>, beside: &str, is_file: bool) -> (path: Result<String, String>)
    ensures
        match path {
            Ok(path) => is_file && path@ == match asked {
                Some(asked) => asked@,
                None => beside@,
            },
            Err(complaint) => !is_file && complaint@ == match asked {
                Some(asked) => "no wintun.dll at "@ + asked@,
                None => "wintun.dll is not at "@ + beside@
                    + " — put it there, or name one with --wintun"@,
            },
        },
{
    match asked {
        Some(asked) => if is_file {
            Ok(String::from_str(asked))
        } else {
            Err(joined("no wintun.dll at ", asked))
        },
        None => if is_file {
            Ok(String::from_str(beside))
        } else {
            Err(
                between(
                    "wintun.dll is not at ",
                    beside,
                    " — put it there, or name one with --wintun",
                ),
            )
        },
    }
}

/// A line that is read asks for nothing that would measure something other than what it says: no
/// cut where there are no segments, no name beside a strategy that does not present it. And its
/// command is never missing.
pub proof fn law_a_line_that_is_read_makes_sense(line: Seq<Seq<char>>)
    ensures
        line_read(line) matches Ok(said) ==> !cuts_nothing(said) && !names_nothing(said)
            && said.command is Some && (said.mtu matches Some(mtu) ==> 1280 <= mtu <= 9000),
{
    lemma_mtu_in_range(nothing_said(), line, 0);
}

proof fn lemma_mtu_in_range(before: Said, line: Seq<Seq<char>>, from: int)
    requires
        before.mtu matches Some(mtu) ==> 1280 <= mtu <= 9000,
    ensures
        read_from(before, line, from) matches Ok(said) ==> (said.mtu matches Some(mtu) ==> 1280
            <= mtu <= 9000),
    decreases line.len() - from,
{
    if 0 <= from < line.len() {
        if is_option(line[from]) {
            if from + 1 < line.len() {
                if let Ok(next) = given(before, line[from], line[from + 1]) {
                    lemma_mtu_in_range(next, line, from + 2);
                }
            }
        } else if before.command is None {
            lemma_mtu_in_range(Said { command: Some(line[from]), ..before }, line, from + 1);
        }
    }
}

/// Whether a text asks for a prefix.
#[verifier::opaque]
pub open spec fn asks_for(text: Seq<char>, prefix: Prefix) -> bool {
    prefix_written(text) == Ok::<Prefix, NoPrefix>(prefix)
}

/// Whether one of some texts asks for a prefix.
pub open spec fn is_asked_for(texts: Seq<Seq<char>>, prefix: Prefix) -> bool {
    exists|i: int| 0 <= i < texts.len() && #[trigger] asks_for(texts[i], prefix)
}

/// One text more.
proof fn lemma_asked_for(texts: Seq<Seq<char>>, prefix: Prefix)
    requires
        texts.len() > 0,
    ensures
        is_asked_for(texts, prefix) <==> is_asked_for(texts.drop_last(), prefix) || asks_for(
            texts.last(),
            prefix,
        ),
{
    let before = texts.drop_last();
    if is_asked_for(before, prefix) {
        let i = choose|i: int| 0 <= i < before.len() && #[trigger] asks_for(before[i], prefix);
        assert(asks_for(texts[i], prefix));
    }
    if is_asked_for(texts, prefix) {
        let i = choose|i: int| 0 <= i < texts.len() && #[trigger] asks_for(texts[i], prefix);
        if i < before.len() {
            assert(asks_for(before[i], prefix));
        }
    }
    if asks_for(texts.last(), prefix) {
        assert(asks_for(texts[texts.len() - 1], prefix));
    }
}

/// What is routed is what was written, no more and no less: the same target twice is one route, and
/// the order they are given in does not matter.
pub proof fn law_targets_are_what_was_written(texts: Seq<Seq<char>>, prefix: Prefix)
    ensures
        prefixes_read(texts) matches Ok(prefixes) ==> (prefixes.contains(prefix) <==> is_asked_for(
            texts,
            prefix,
        )),
    decreases texts.len(),
{
    if texts.len() > 0 {
        law_targets_are_what_was_written(texts.drop_last(), prefix);
        lemma_asked_for(texts, prefix);
        reveal(asks_for);
    }
}

/// An option is read with the argument behind it, whatever that is, and the rest of the line is read
/// as it would be alone; with nothing behind it, it is complained of.
pub proof fn law_options_are_read_with_their_values(
    before: Said,
    option: Seq<char>,
    value: Seq<char>,
    rest: Seq<Seq<char>>,
)
    requires
        is_option(option),
    ensures
        read_from(before, seq![option], 0) == Err::<Said, _>(option + " needs a value after it"@),
        read_from(before, seq![option, value] + rest, 0) == match given(before, option, value) {
            Err(complaint) => Err(complaint),
            Ok(next) => read_from(next, rest, 0),
        },
{
    let line = seq![option, value] + rest;
    assert(line[0] == option && line[1] == value);
    if let Ok(next) = given(before, option, value) {
        lemma_read_behind(next, seq![option, value], rest, 0);
    }
}

/// What is read from a place on depends on nothing in front of it.
proof fn lemma_read_behind(
    before: Said,
    front: Seq<Seq<char>>,
    rest: Seq<Seq<char>>,
    from: int,
)
    requires
        0 <= from <= rest.len(),
    ensures
        read_from(before, front + rest, front.len() as int + from) == read_from(before, rest, from),
    decreases rest.len() - from,
{
    let line = front + rest;
    let at = front.len() as int + from;
    if from < rest.len() {
        assert(line[at] == rest[from]);
        if is_option(rest[from]) {
            if from + 1 < rest.len() {
                assert(line[at + 1] == rest[from + 1]);
                if let Ok(next) = given(before, rest[from], rest[from + 1]) {
                    lemma_read_behind(next, front, rest, from + 2);
                }
            }
        } else if before.command is None {
            lemma_read_behind(
                Said { command: Some(rest[from]), ..before },
                front,
                rest,
                from + 1,
            );
        }
    }
}

/// The first word that is no option is the command, a second one is complained of, and so is an option
/// that there is none of.
pub proof fn law_one_word_is_the_command(before: Said, word: Seq<char>, rest: Seq<Seq<char>>)
    requires
        !is_option(word),
    ensures
        word.len() > 0 && word[0] == '-' ==> read_from(before, seq![word] + rest, 0) == Err::<
            Said,
            _,
        >("unknown option: "@ + word),
        word.len() == 0 || word[0] != '-' ==> {
            &&& before.command is None ==> read_from(before, seq![word] + rest, 0) == read_from(
                Said { command: Some(word), ..before },
                rest,
                0,
            )
            &&& before.command is Some ==> read_from(before, seq![word] + rest, 0) == Err::<
                Said,
                _,
            >("unexpected argument: "@ + word)
        },
        read_from(before, Seq::empty(), 0) == Ok::<_, Seq<char>>(before),
{
    assert((seq![word] + rest)[0] == word);
    if before.command is None {
        lemma_read_behind(Said { command: Some(word), ..before }, seq![word], rest, 0);
    }
}

/// The adapter's MTU may be 1280 to 9000, and nothing else.
pub proof fn law_the_mtu_is_within_bounds(n: u32)
    ensures
        1280 <= n <= 9000 ==> mtu_read(digits(n as nat)) == Ok::<_, Seq<char>>(n),
        n < 1280 || n > 9000 ==> mtu_read(digits(n as nat)) == Err::<u32, _>(
            digits(n as nat) + " is outside 1280..=9000"@,
        ),
{
    crate::text::laws::law_a_shown_number_is_read_back(n as nat, u32::MAX as int);
}

/// A line that says nothing asks for a probe of the identity in identity.json, and leaves the rest
/// to itself.
pub proof fn law_a_line_that_says_nothing_probes()
    ensures
        line_read(Seq::empty()) matches Ok(said) && said.command == Some("probe"@) && said.identity
            == "identity.json"@ && said.wintun is None && said.targets.len() == 0 && said.dns_listen
            is None && said.log_level is None && said.handshake is None && said.sni is None
            && said.transport is None && said.mtu is None,
{
}

/// Each option says one thing and leaves the others as they were; a target is added to those before
/// it, and a value that an option cannot take is complained of in its own words.
#[verifier::spinoff_prover]
pub proof fn law_each_option_says_one_thing(before: Said, value: Seq<char>)
    ensures
        given(before, "--identity"@, value) == Ok::<_, Seq<char>>(
            Said { identity: value, ..before },
        ),
        given(before, "--wintun"@, value) == Ok::<_, Seq<char>>(
            Said { wintun: Some(value), ..before },
        ),
        given(before, "--target"@, value) == Ok::<_, Seq<char>>(
            Said { targets: before.targets.push(value), ..before },
        ),
        given(before, "--sni"@, value) == Ok::<_, Seq<char>>(Said { sni: Some(value), ..before }),
        match handshake_read(value) {
            Some(handshake) => given(before, "--handshake"@, value) == Ok::<_, Seq<char>>(
                Said { handshake: Some(handshake), ..before },
            ),
            None => given(before, "--handshake"@, value) == Err::<Said, _>(
                "`"@ + value + "` is not a handshake strategy"@,
            ),
        },
        match choice_read(value) {
            Some(choice) => given(before, "--transport"@, value) == Ok::<_, Seq<char>>(
                Said { transport: Some(choice), ..before },
            ),
            None => given(before, "--transport"@, value) == Err::<Said, _>(
                "`"@ + value + "` is not auto, h3 or h2"@,
            ),
        },
        match mtu_read(value) {
            Ok(mtu) => given(before, "--mtu"@, value) == Ok::<_, Seq<char>>(
                Said { mtu: Some(mtu), ..before },
            ),
            Err(complaint) => given(before, "--mtu"@, value) == Err::<Said, _>(complaint),
        },
        match level_read(lower(trimmed(value))) {
            Some(level) => given(before, "--log-level"@, value) == Ok::<_, Seq<char>>(
                Said { log_level: Some(level), ..before },
            ),
            None => given(before, "--log-level"@, value) == Err::<Said, _>(
                "`"@ + value + "` is not a level"@,
            ),
        },
        match socket_written(value) {
            Some(socket) => given(before, "--dns-listen"@, value) == Ok::<_, Seq<char>>(
                Said { dns_listen: Some(socket), ..before },
            ),
            None => given(before, "--dns-listen"@, value) == Err::<Said, _>(
                "`"@ + value + "` is not an address and port"@,
            ),
        },
{
    reveal_strlit("--identity");
    reveal_strlit("--wintun");
    reveal_strlit("--target");
    reveal_strlit("--log-level");
    reveal_strlit("--handshake");
    reveal_strlit("--sni");
    reveal_strlit("--transport");
    reveal_strlit("--mtu");
    reveal_strlit("--dns-listen");
    assert("--identity"@.len() == 10 && "--wintun"@.len() == 8 && "--target"@.len() == 8
        && "--log-level"@.len() == 11 && "--handshake"@.len() == 11 && "--sni"@.len() == 5
        && "--transport"@.len() == 11 && "--mtu"@.len() == 5 && "--dns-listen"@.len() == 12);
    assert("--wintun"@[2] == 'w' && "--target"@[2] == 't');
    assert("--log-level"@[2] == 'l' && "--handshake"@[2] == 'h' && "--transport"@[2] == 't');
    assert("--sni"@[2] == 's' && "--mtu"@[2] == 'm');
}

/// A name for `fronted` beside another strategy is refused, and so is a split handshake where HTTP/3
/// alone was asked for; nothing else that can be read is.
pub proof fn law_what_means_nothing_is_refused(said: Said)
    ensures
        cuts_nothing(said) <==> said.transport == Some(Choice::H3) && (said.handshake == Some(
            Handshake::Split,
        ) || said.handshake == Some(Handshake::SplitSlow)),
        names_nothing(said) <==> said.sni is Some && (said.handshake == Some(Handshake::Named)
            || said.handshake == Some(Handshake::NoSni) || said.handshake == Some(Handshake::Split)
            || said.handshake == Some(Handshake::SplitSlow)),
{
    match said.handshake {
        None => {},
        Some(Handshake::Named) => {},
        Some(Handshake::NoSni) => {},
        Some(Handshake::Split) => {},
        Some(Handshake::SplitSlow) => {},
        Some(Handshake::Fronted) => {},
    }
}

} // verus!
