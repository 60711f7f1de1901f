//! What the core says about what it is doing.
//!
//! One line each: the reader is the application that started this process. The level word comes
//! first, spelled the way the application's classifier expects. The level is asked before a message
//! is built, so a line that will not be printed costs a comparison.

use vstd::prelude::*;
use vstd::string::StrSliceExecFns;
use crate::text;
use crate::text::{between, joined, lower, lowered, same, trimmed};

verus! {

/// How much is said. Ordered from least to most: a level enables itself and everything above it.
#[derive(Debug, Clone, Copy, PartialEq, Eq, Structural)]
pub enum Level {
    /// Something failed and will not be retried into working.
    Error,
    /// Something is wrong but the core is carrying on.
    Warn,
    /// A decision a person would want to know about without asking: the policy changed, the tunnel
    /// moved, the routed set is different.
    Notice,
    /// One line per thing that happened: a query answered, a set applied.
    Info,
    /// The contents: which addresses, which prefixes, which packet.
    Debug,
}

/// How far down the list a level is, and so how much it lets through.
pub open spec fn rank(level: Level) -> u8 {
    match level {
        Level::Error => 0,
        Level::Warn => 1,
        Level::Notice => 2,
        Level::Info => 3,
        Level::Debug => 4,
    }
}

/// The word a line at a level starts with.
pub open spec fn level_word(level: Level) -> Seq<char> {
    match level {
        Level::Error => "ERROR"@,
        Level::Warn => "WARN"@,
        Level::Notice => "NOTICE"@,
        Level::Info => "INFO"@,
        Level::Debug => "DEBUG"@,
    }
}

/// The level a word stands for, in lower case and without white space around it.
pub open spec fn level_read(word: Seq<char>) -> Option<Level> {
    if word == "error"@ {
        Some(Level::Error)
    } else if word == "warn"@ || word == "warning"@ {
        Some(Level::Warn)
    } else if word == "notice"@ {
        Some(Level::Notice)
    } else if word == "info"@ {
        Some(Level::Info)
    } else if word == "debug"@ || word == "trace"@ {
        Some(Level::Debug)
    } else {
        None
    }
}

impl Level {
    /// The word that starts the line, and the word the application classifies by.
    pub fn word(self) -> (word: &'static str)
        ensures
            word@ == level_word(self),
    {
        match self {
            Level::Error => "ERROR",
            Level::Warn => "WARN",
            Level::Notice => "NOTICE",
            Level::Info => "INFO",
            Level::Debug => "DEBUG",
        }
    }

    /// Read a level as a person writes it. Anything unrecognised is refused rather than guessed:
    /// silently falling back would mean a request to see more producing exactly what it did before.
    pub fn parse(text: &str) -> (level: Option<Self>)
        ensures
            level == level_read(lower(trimmed(text@))),
    {
        let bare = text::trim(text);
        let word = lowered(bare.as_str());
        let word = word.as_str();
        if same(word, "error") {
            Some(Level::Error)
        } else if same(word, "warn") || same(word, "warning") {
            Some(Level::Warn)
        } else if same(word, "notice") {
            Some(Level::Notice)
        } else if same(word, "info") {
            Some(Level::Info)
        } else if same(word, "debug") || same(word, "trace") {
            Some(Level::Debug)
        } else {
            None
        }
    }

    /// The level as one byte.
    pub fn stored(self) -> (value: u8)
        ensures
            value == rank(self),
    {
        match self {
            Level::Error => 0,
            Level::Warn => 1,
            Level::Notice => 2,
            Level::Info => 3,
            Level::Debug => 4,
        }
    }

    /// The level one byte stands for. Anything unknown is the default.
    pub fn from_stored(value: u8) -> (level: Self)
        ensures
            value <= 4 ==> rank(level) == value,
            value > 4 ==> level == Level::Info,
    {
        match value {
            0 => Level::Error,
            1 => Level::Warn,
            2 => Level::Notice,
            4 => Level::Debug,
            _ => Level::Info,
        }
    }
}

/// How much is being said. One line per thing that happened is the default: enough to answer "why
/// did that name go there" without being asked in advance, and not so much that a busy machine
/// drowns its own journal.
#[derive(Debug)]
pub struct Journal {
    level: u8,
}

impl Journal {
    /// The level in force.
    pub closed spec fn at(&self) -> Level {
        if self.level == 0 {
            Level::Error
        } else if self.level == 1 {
            Level::Warn
        } else if self.level == 2 {
            Level::Notice
        } else if self.level == 4 {
            Level::Debug
        } else {
            Level::Info
        }
    }

    /// The level is one there is.
    pub closed spec fn wf(&self) -> bool {
        self.level <= 4
    }

    pub fn new() -> (journal: Self)
        ensures
            journal.wf(),
            journal.at() == Level::Info,
    {
        Journal { level: 3 }
    }
}

impl Default for Journal {
    fn default() -> (journal: Self)
        ensures
            journal.wf(),
            journal.at() == Level::Info,
    {
        Journal::new()
    }
}

/// Change how much is said. Takes effect on the next line.
pub fn set_level(journal: &mut Journal, level: Level)
    ensures
        final(journal).wf(),
        final(journal).at() == level,
{
    journal.level = level.stored();
}

/// How much is being said right now.
pub fn level(journal: &Journal) -> (level: Level)
    requires
        journal.wf(),
    ensures
        level == journal.at(),
{
    Level::from_stored(journal.level)
}

/// Whether a line at this level would be printed. Checked before the message is built.
pub fn enabled(journal: &Journal, level: Level) -> (enabled: bool)
    requires
        journal.wf(),
    ensures
        enabled == is_said(journal.at(), level),
{
    level.stored() <= journal.level
}

/// A text filled up with spaces behind it, to at least so many characters.
pub open spec fn padded(text: Seq<char>, width: nat) -> Seq<char>
    decreases width - text.len(),
{
    if text.len() >= width {
        text
    } else {
        padded(text.push(' '), width)
    }
}

/// A text filled up with spaces behind it.
fn pad(text: &str, width: usize) -> (out: String)
    ensures
        out@ == padded(text@, width as nat),
{
    let mut out = text.to_string();
    let mut at: usize = out.as_str().unicode_len();
    while at < width
        invariant
            at == out@.len(),
            padded(out@, width as nat) == padded(text@, width as nat),
        decreases width - at,
    {
        let longer = joined(out.as_str(), " ");
        proof {
            reveal_strlit(" ");
            assert(longer@ =~= out@.push(' '));
        }
        out = longer;
        at += 1;
    }
    out
}

/// A line of the journal: the level's word, where it comes from, and what it says.
pub fn entry(level: Level, scope: &str, message: &str) -> (line: String)
    ensures
        line@ == padded(level_word(level), 6) + " "@ + padded(scope@, 8) + " "@ + message@,
{
    let word = pad(level.word(), 6);
    let scope = pad(scope, 8);
    let start = between(word.as_str(), " ", scope.as_str());
    between(start.as_str(), " ", message)
}

/// Whether a journal at a level says a line.
pub open spec fn is_said(at: Level, line: Level) -> bool {
    rank(line) <= rank(at)
}

/// A level enables itself and everything more severe, and nothing less severe.
pub proof fn law_a_level_enables_itself_and_everything_more_severe(at: Level, line: Level)
    ensures
        is_said(at, at),
        rank(line) < rank(at) ==> is_said(at, line),
        rank(line) > rank(at) ==> !is_said(at, line),
        is_said(at, line) && is_said(line, at) ==> at == line,
{
}

/// From the most severe to the least: errors, warnings, notices, information, and what is only for
/// finding faults. A line is said exactly where it is no less severe than the level.
pub proof fn law_the_levels_from_severe_to_chatty(line: Level)
    ensures
        is_said(Level::Error, line) <==> line is Error,
        is_said(Level::Warn, line) <==> line is Error || line is Warn,
        is_said(Level::Notice, line) <==> line is Error || line is Warn || line is Notice,
        is_said(Level::Info, line) <==> !(line is Debug),
        is_said(Level::Debug, line),
{
}

/// Each level is read from its own word in lower case, two of them from another word too, and nothing
/// else is read as a level.
pub proof fn law_levels_are_read_from_their_words(word: Seq<char>)
    ensures
        level_read("error"@) == Some(Level::Error),
        level_read("warn"@) == Some(Level::Warn),
        level_read("warning"@) == Some(Level::Warn),
        level_read("notice"@) == Some(Level::Notice),
        level_read("info"@) == Some(Level::Info),
        level_read("debug"@) == Some(Level::Debug),
        level_read("trace"@) == Some(Level::Debug),
        level_read(word) is Some ==> word == "error"@ || word == "warn"@ || word == "warning"@ || word
            == "notice"@ || word == "info"@ || word == "debug"@ || word == "trace"@,
{
    reveal_strlit("error");
    reveal_strlit("warn");
    reveal_strlit("warning");
    reveal_strlit("notice");
    reveal_strlit("info");
    reveal_strlit("debug");
    reveal_strlit("trace");
    assert("error"@.len() == 5 && "debug"@.len() == 5 && "trace"@.len() == 5);
    assert("error"@[0] == 'e' && "debug"@[0] == 'd' && "trace"@[0] == 't');
    assert("warn"@.len() == 4 && "info"@.len() == 4);
    assert("warn"@[0] == 'w' && "info"@[0] == 'i');
    assert("warning"@.len() == 7 && "notice"@.len() == 6);
}

/// A text that is filled up is the text and as many spaces as are wanting.
pub proof fn law_a_word_is_filled_with_spaces(text: Seq<char>, width: nat, i: int)
    ensures
        padded(text, width).len() == if text.len() > width {
            text.len()
        } else {
            width
        },
        0 <= i < text.len() ==> padded(text, width)[i] == text[i],
        text.len() <= i < width ==> padded(text, width)[i] == ' ',
    decreases width - text.len(),
{
    if text.len() < width {
        law_a_word_is_filled_with_spaces(text.push(' '), width, i);
    }
}

} // verus!
