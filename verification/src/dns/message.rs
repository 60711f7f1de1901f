//! Reading DNS messages. Reading only.
//!
//! This core forwards queries and returns the answer it was given, byte for byte. It never speaks
//! for a name itself, so it needs to understand a message well enough to act on it and no better.
//!
//! A message arrives from the network before anything has been decided about it, so a malformed one
//! is an error and never a panic, and reading one always ends.

use vstd::prelude::*;
use vstd::string::StringExecFns;
use crate::address::{lemma_number_bound, lemma_pow256, number, number_of, IpAddr};
use crate::text::{between, decimal, digits, lower_char, lower_of};
use crate::wire::{be16, be16_spec, be32, be32_spec};

pub mod laws;

verus! {

/// Resource record types this core acts on. Anything else is passed through without inspection.
pub const TYPE_A: u16 = 1;

/// The record type carrying an IPv6 address.
pub const TYPE_AAAA: u16 = 28;

/// The internet class. A query in any other class is not something this core has an opinion about.
pub const CLASS_IN: u16 = 1;

/// Bytes before the first question: id, flags, and the four section counts.
pub const HEADER_LEN: usize = 12;

/// A length byte from here up marks a compression pointer rather than a label.
pub const POINTER: u8 = 0xc0;

/// A single label may be 63 bytes, and a whole name 255. Both are the protocol's limits, and both
/// are what stops a crafted message from making a reader allocate without bound.
pub const MAX_LABEL: usize = 63;

/// The most bytes a name may be written in.
pub const MAX_NAME: usize = 255;

/// How many compression jumps one name may take. A pointer may only ever lead backwards, so a
/// well-formed name cannot need many.
pub const MAX_JUMPS: usize = 16;

/// Why a message could not be read.
///
/// Every one of these is a message that arrived, not a failure to receive one: reading stops at the
/// first thing that does not make sense rather than guessing past it.
#[derive(Debug, Clone, Copy, PartialEq, Eq)]
pub enum MessageError {
    /// The message ends before this does.
    Truncated(&'static str),
    /// The message carries no question.
    NoQuestion,
    /// A label is this many bytes, and 63 is the most a label may be.
    LabelTooLong(usize),
    /// A name is longer than the 255 bytes a name may be.
    NameTooLong,
    /// A compression pointer leads outside the message.
    PointerOutOfRange,
    /// A compression pointer leads back on itself.
    PointerLoop,
}

/// What is said about a message that cannot be read.
pub open spec fn message_text(error: MessageError) -> Seq<char> {
    match error {
        MessageError::Truncated(what) => "the message ends before its "@ + what@ + " does"@,
        MessageError::NoQuestion => "the message carries no question"@,
        MessageError::LabelTooLong(length) => "a label is "@ + digits(length as nat)
            + " bytes, and 63 is the most a label may be"@,
        MessageError::NameTooLong => "a name is longer than the 255 bytes a name may be"@,
        MessageError::PointerOutOfRange => "a compression pointer leads outside the message"@,
        MessageError::PointerLoop => "a compression pointer leads back on itself"@,
    }
}

impl MessageError {
    /// What is said about it.
    pub fn text(&self) -> (text: String)
        ensures
            text@ == message_text(*self),
    {
        match self {
            MessageError::Truncated(what) => between("the message ends before its ", what, " does"),
            MessageError::NoQuestion => String::from_str("the message carries no question"),
            MessageError::LabelTooLong(length) => {
                let length = decimal(*length as u128);
                between(
                    "a label is ",
                    length.as_str(),
                    " bytes, and 63 is the most a label may be",
                )
            },
            MessageError::NameTooLong => String::from_str(
                "a name is longer than the 255 bytes a name may be",
            ),
            MessageError::PointerOutOfRange => String::from_str(
                "a compression pointer leads outside the message",
            ),
            MessageError::PointerLoop => String::from_str(
                "a compression pointer leads back on itself",
            ),
        }
    }
}

/// What a query is asking for.
#[derive(Debug, Clone, PartialEq, Eq)]
pub struct Query {
    /// The transaction id, so a reply can be matched to it.
    pub id: u16,
    /// The name asked about, lowercase, without a trailing dot.
    pub name: String,
    pub qtype: u16,
    pub qclass: u16,
}

/// A query, its name as characters.
pub ghost struct Question {
    pub id: u16,
    pub name: Seq<char>,
    pub qtype: u16,
    pub qclass: u16,
}

impl View for Query {
    type V = Question;

    open spec fn view(&self) -> Question {
        Question { id: self.id, name: self.name@, qtype: self.qtype, qclass: self.qclass }
    }
}

/// One address a reply carries, and how long it may be believed.
#[derive(Debug, Clone, PartialEq, Eq)]
pub struct Record {
    /// The name this record is about, which after a CNAME chain is not the name that was asked.
    pub name: String,
    pub address: IpAddr,
    pub ttl: u32,
}

/// A record, its name as characters.
pub ghost struct Answer {
    pub name: Seq<char>,
    pub address: IpAddr,
    pub ttl: u32,
}

impl View for Record {
    type V = Answer;

    open spec fn view(&self) -> Answer {
        Answer { name: self.name@, address: self.address, ttl: self.ttl }
    }
}

/// Records as plain values.
pub open spec fn answers_of(records: Seq<Record>) -> Seq<Answer> {
    records.map_values(|record: Record| record@)
}

/// The labels of the name written at `at`, and where it ends there: behind its last byte, or behind
/// the first pointer it takes. `jumps` pointers were taken on the way here and `seen` bytes of
/// labels read.
pub open spec fn labels_at(message: Seq<u8>, at: int, jumps: int, seen: int) -> Result<
    (Seq<Seq<u8>>, int),
    MessageError,
>
    decreases MAX_JUMPS - jumps, MAX_NAME - seen,
{
    if !(0 <= at < message.len()) {
        Err(MessageError::Truncated("name"))
    } else if message[at] >= POINTER {
        if at + 1 >= message.len() {
            Err(MessageError::Truncated("name pointer"))
        } else {
            let target = (message[at] - POINTER) * 256 + message[at + 1];
            if target >= message.len() {
                Err(MessageError::PointerOutOfRange)
            } else if target >= at || jumps >= MAX_JUMPS {
                Err(MessageError::PointerLoop)
            } else {
                match labels_at(message, target, jumps + 1, seen) {
                    Ok((labels, _)) => Ok((labels, at + 2)),
                    Err(error) => Err(error),
                }
            }
        }
    } else if message[at] == 0 {
        Ok((Seq::empty(), at + 1))
    } else {
        let length = message[at] as int;
        if length > MAX_LABEL {
            Err(MessageError::LabelTooLong(message[at] as usize))
        } else if seen + length + 1 > MAX_NAME {
            Err(MessageError::NameTooLong)
        } else if at + 1 + length > message.len() {
            Err(MessageError::Truncated("label"))
        } else {
            match labels_at(message, at + 1 + length, jumps, seen + length + 1) {
                Ok((labels, end)) => Ok(
                    (seq![message.subrange(at + 1, at + 1 + length)] + labels, end),
                ),
                Err(error) => Err(error),
            }
        }
    }
}

/// A byte of a label as it is compared: a character, in lower case.
pub open spec fn label_char(byte: u8) -> char {
    lower_char(byte as char)
}

/// A label as it is compared.
pub open spec fn label_text(label: Seq<u8>) -> Seq<char> {
    label.map_values(|byte: u8| label_char(byte))
}

/// Labels with a dot between them, in lower case.
pub open spec fn dotted(labels: Seq<Seq<u8>>) -> Seq<char>
    decreases labels.len(),
{
    if labels.len() == 0 {
        Seq::empty()
    } else if labels.len() == 1 {
        label_text(labels[0])
    } else {
        dotted(labels.drop_last()) + seq!['.'] + label_text(labels.last())
    }
}

/// The name written at `at`, and where it ends there.
pub open spec fn name_at(message: Seq<u8>, at: int) -> Result<(Seq<char>, int), MessageError> {
    match labels_at(message, at, 0, 0) {
        Ok((labels, end)) => Ok((dotted(labels), end)),
        Err(error) => Err(error),
    }
}

/// The 16-bit number at a place in a message.
pub open spec fn u16_at(message: Seq<u8>, at: int) -> int {
    be16_spec(message[at], message[at + 1])
}

/// The 32-bit number at a place in a message.
pub open spec fn u32_at(message: Seq<u8>, at: int) -> int {
    be32_spec(message[at], message[at + 1], message[at + 2], message[at + 3])
}

/// What a query asks.
pub open spec fn question(message: Seq<u8>) -> Result<Question, MessageError> {
    if message.len() < HEADER_LEN {
        Err(MessageError::Truncated("header"))
    } else if u16_at(message, 4) == 0 {
        Err(MessageError::NoQuestion)
    } else {
        match name_at(message, HEADER_LEN as int) {
            Err(error) => Err(error),
            Ok((name, after)) => if after + 2 > message.len() {
                Err(MessageError::Truncated("question type"))
            } else if after + 4 > message.len() {
                Err(MessageError::Truncated("question class"))
            } else {
                Ok(
                    Question {
                        id: u16_at(message, 0) as u16,
                        name,
                        qtype: u16_at(message, after) as u16,
                        qclass: u16_at(message, after + 2) as u16,
                    },
                )
            },
        }
    }
}

/// Where `count` questions that start at `at` end, or the end of the message where they lead past
/// it.
pub open spec fn past_questions(message: Seq<u8>, at: int, count: int) -> Result<int, MessageError>
    decreases count,
{
    if count <= 0 {
        Ok(at)
    } else {
        match name_at(message, at) {
            Err(error) => Err(error),
            Ok((_, after)) => past_questions(
                message,
                if after + 4 <= message.len() {
                    after + 4
                } else {
                    message.len() as int
                },
                count - 1,
            ),
        }
    }
}

/// The address that a record of this type and data carries.
pub open spec fn address_in(rtype: int, data: Seq<u8>) -> Option<IpAddr> {
    if rtype == TYPE_A && data.len() == 4 {
        Some(IpAddr::V4(number(data) as u32))
    } else if rtype == TYPE_AAAA && data.len() == 16 {
        Some(IpAddr::V6(number(data) as u128))
    } else {
        None
    }
}

/// The record at `at`: the address it carries, if it carries one, and where it ends.
pub open spec fn record_at(message: Seq<u8>, at: int) -> Result<
    (Option<Answer>, int),
    MessageError,
> {
    match name_at(message, at) {
        Err(error) => Err(error),
        Ok((name, after)) => if after + 2 > message.len() {
            Err(MessageError::Truncated("record type"))
        } else if after + 4 > message.len() {
            Err(MessageError::Truncated("record class"))
        } else if after + 8 > message.len() {
            Err(MessageError::Truncated("record ttl"))
        } else if after + 10 > message.len() {
            Err(MessageError::Truncated("record"))
        } else {
            let end = after + 10 + u16_at(message, after + 8);
            if end > message.len() {
                Err(MessageError::Truncated("record data"))
            } else {
                let data = message.subrange(after + 10, end);
                let address = if u16_at(message, after + 2) == CLASS_IN {
                    address_in(u16_at(message, after), data)
                } else {
                    None
                };
                match address {
                    Some(address) => Ok(
                        (
                            Some(
                                Answer { name, address, ttl: u32_at(message, after + 4) as u32 },
                            ),
                            end,
                        ),
                    ),
                    None => Ok((None, end)),
                }
            }
        },
    }
}

/// The addresses that `count` records from `at` on carry, in the order they are written.
pub open spec fn records_from(message: Seq<u8>, at: int, count: int) -> Result<
    Seq<Answer>,
    MessageError,
>
    decreases count,
{
    if count <= 0 {
        Ok(Seq::empty())
    } else {
        match record_at(message, at) {
            Err(error) => Err(error),
            Ok((found, end)) => match records_from(message, end, count - 1) {
                Err(error) => Err(error),
                Ok(rest) => match found {
                    Some(answer) => Ok(seq![answer] + rest),
                    None => Ok(rest),
                },
            },
        }
    }
}

/// The addresses in the answer section of a reply.
pub open spec fn answers(message: Seq<u8>) -> Result<Seq<Answer>, MessageError> {
    if message.len() < HEADER_LEN {
        Err(MessageError::Truncated("header"))
    } else {
        match past_questions(message, HEADER_LEN as int, u16_at(message, 4)) {
            Err(error) => Err(error),
            Ok(at) => records_from(message, at, u16_at(message, 6)),
        }
    }
}

/// A name ends inside the message it is read from.
proof fn lemma_name_end(message: Seq<u8>, at: int, jumps: int, seen: int)
    ensures
        labels_at(message, at, jumps, seen) matches Ok((_, end)) ==> at < end <= message.len(),
    decreases MAX_JUMPS - jumps, MAX_NAME - seen,
{
    if 0 <= at < message.len() && 0 < message[at] <= MAX_LABEL {
        let length = message[at] as int;
        if seen + length + 1 <= MAX_NAME && at + 1 + length <= message.len() {
            lemma_name_end(message, at + 1 + length, jumps, seen + length + 1);
        }
    }
}

/// Appending a label appends it to the dotted name.
proof fn lemma_dotted_push(labels: Seq<Seq<u8>>, label: Seq<u8>)
    ensures
        dotted(labels.push(label)) == if labels.len() == 0 {
            label_text(label)
        } else {
            dotted(labels) + seq!['.'] + label_text(label)
        },
{
    assert(labels.push(label).drop_last() =~= labels);
}

/// Write a label at the end of a name.
fn push_label(name: &mut String, label: &[u8])
    ensures
        final(name)@ == old(name)@ + label_text(label@),
{
    let ghost before = name@;
    let ghost text = label_text(label@);
    let mut i: usize = 0;
    assert(before + text.take(0) =~= before);
    while i < label.len()
        invariant
            i <= label.len(),
            text == label_text(label@),
            name@ == before + text.take(i as int),
        decreases label.len() - i,
    {
        name.push(lower_of(label[i] as char));
        assert(text.take(i + 1) =~= text.take(i as int).push(text[i as int]));
        assert(name@ =~= before + text.take(i + 1));
        i += 1;
    }
    assert(text.take(i as int) =~= text);
}

/// Read a name, following compression pointers, and say where the name ended in the stream.
///
/// The returned offset is the position after the name as it was written here: after the two bytes
/// of the first pointer, if one was taken. That is what a caller walking the message needs.
pub fn read_name(message: &[u8], start: usize) -> (read: Result<(String, usize), MessageError>)
    ensures
        match read {
            Ok((name, end)) => name_at(message@, start as int) == Ok::<_, MessageError>(
                (name@, end as int),
            ) && end <= message@.len(),
            Err(error) => name_at(message@, start as int) == Err::<(Seq<char>, int), _>(error),
        },
{
    let mut name = String::new();
    let mut at: usize = start;
    let mut after: Option<usize> = None;
    let mut jumps: usize = 0;
    let mut seen: usize = 0;
    let ghost mut done: Seq<Seq<u8>> = Seq::empty();
    let ghost whole = labels_at(message@, start as int, 0, 0);
    proof {
        lemma_name_end(message@, start as int, 0, 0);
        if let Ok((labels, _)) = whole {
            assert(done + labels =~= labels);
        }
    }
    loop
        invariant
            jumps <= MAX_JUMPS,
            seen <= MAX_NAME,
            whole == labels_at(message@, start as int, 0, 0),
            whole matches Ok((_, end)) ==> end <= message@.len(),
            name@ == dotted(done),
            seen > 0 <==> done.len() > 0,
            whole == match labels_at(message@, at as int, jumps as int, seen as int) {
                Ok((rest, end)) => Ok(
                    (
                        done + rest,
                        match after {
                            Some(behind) => behind as int,
                            None => end,
                        },
                    ),
                ),
                Err(error) => Err(error),
            },
        decreases MAX_JUMPS - jumps, MAX_NAME - seen,
    {
        if at >= message.len() {
            return Err(MessageError::Truncated("name"));
        }
        let first = message[at];
        if first >= POINTER {
            if message.len() - at < 2 {
                return Err(MessageError::Truncated("name pointer"));
            }
            let target: usize = (first - POINTER) as usize * 256 + message[at + 1] as usize;
            if target >= message.len() {
                return Err(MessageError::PointerOutOfRange);
            }
            // A pointer must lead backwards; anything else is either a cycle or a message written
            // to make this loop.
            if target >= at || jumps >= MAX_JUMPS {
                return Err(MessageError::PointerLoop);
            }
            jumps += 1;
            // Only the first jump decides where the name ended for the caller.
            if after.is_none() {
                after = Some(at + 2);
            }
            at = target;
            continue;
        }
        if first == 0 {
            assert(done + Seq::<Seq<u8>>::empty() =~= done);
            return Ok(
                (
                    name,
                    match after {
                        Some(behind) => behind,
                        None => at + 1,
                    },
                ),
            );
        }
        let length = first as usize;
        if length > MAX_LABEL {
            return Err(MessageError::LabelTooLong(length));
        }
        if seen + length + 1 > MAX_NAME {
            return Err(MessageError::NameTooLong);
        }
        let from: usize = at + 1;
        if message.len() - from < length {
            return Err(MessageError::Truncated("label"));
        }
        let to: usize = from + length;
        proof {
            let label = message@.subrange(from as int, to as int);
            lemma_dotted_push(done, label);
            if let Ok((rest, _)) = labels_at(
                message@,
                to as int,
                jumps as int,
                seen + length + 1,
            ) {
                assert(done.push(label) + rest =~= done + (seq![label] + rest));
            }
            done = done.push(label);
        }
        // Names are compared case-insensitively, and every comparison this core makes is against a
        // policy written in lowercase. Lowering here means no caller has to remember to.
        if seen > 0 {
            name.push('.');
        }
        push_label(&mut name, vstd::slice::slice_subrange(message, from, to));
        seen += length + 1;
        at = to;
    }
}

/// The 16-bit number `offset` bytes behind a place in the message, if the message is long enough.
fn read_u16(message: &[u8], at: usize) -> (value: Option<u16>)
    requires
        at <= message@.len(),
    ensures
        match value {
            Some(value) => at + 2 <= message@.len() && value == u16_at(message@, at as int),
            None => at + 2 > message@.len(),
        },
{
    if message.len() - at < 2 {
        None
    } else {
        Some(be16(message[at], message[at + 1]))
    }
}

/// The 32-bit number at a place in the message, if the message is long enough.
fn read_u32(message: &[u8], at: usize) -> (value: Option<u32>)
    requires
        at <= message@.len(),
    ensures
        match value {
            Some(value) => at + 4 <= message@.len() && value == u32_at(message@, at as int),
            None => at + 4 > message@.len(),
        },
{
    if message.len() - at < 4 {
        None
    } else {
        Some(be32(message[at], message[at + 1], message[at + 2], message[at + 3]))
    }
}

/// Read the question out of a query.
///
/// Only the first question is read. A message may declare several, but no resolver in practice
/// sends one, and acting on a message whose questions disagree about policy would mean choosing
/// which of them to obey.
pub fn read_query(message: &[u8]) -> (query: Result<Query, MessageError>)
    ensures
        match query {
            Ok(query) => question(message@) == Ok::<_, MessageError>(query@),
            Err(error) => question(message@) == Err::<Question, _>(error),
        },
{
    if message.len() < HEADER_LEN {
        return Err(MessageError::Truncated("header"));
    }
    if be16(message[4], message[5]) == 0 {
        return Err(MessageError::NoQuestion);
    }
    let (name, after) = read_name(message, HEADER_LEN)?;
    match read_u16(message, after) {
        None => Err(MessageError::Truncated("question type")),
        Some(qtype) => match read_u16(message, after + 2) {
            None => Err(MessageError::Truncated("question class")),
            Some(qclass) => Ok(
                Query { id: be16(message[0], message[1]), name, qtype, qclass },
            ),
        },
    }
}

/// The address that a record's data is, if the record is one of an address.
fn address_of(rtype: u16, data: &[u8]) -> (address: Option<IpAddr>)
    ensures
        address == address_in(rtype as int, data@),
{
    proof {
        lemma_number_bound(data@);
        lemma_pow256();
    }
    if rtype == TYPE_A && data.len() == 4 {
        Some(IpAddr::V4(number_of(data) as u32))
    } else if rtype == TYPE_AAAA && data.len() == 16 {
        Some(IpAddr::V6(number_of(data)))
    } else {
        // Any other type, and an A or AAAA whose length disagrees with its type: skipped. The second
        // is malformed, but skipping it costs one address and refusing the message costs the whole
        // answer.
        None
    }
}

/// Read one record: the address it carries, if it carries one, and where it ends.
fn read_record(message: &[u8], at: usize) -> (read: Result<(Option<Record>, usize), MessageError>)
    ensures
        match read {
            Ok((found, end)) => end <= message@.len() && record_at(message@, at as int) == Ok::<
                _,
                MessageError,
            >(
                (
                    match found {
                        Some(record) => Some(record@),
                        None => None,
                    },
                    end as int,
                ),
            ),
            Err(error) => record_at(message@, at as int) == Err::<(Option<Answer>, int), _>(error),
        },
{
    let total: usize = message.len();
    let (name, after) = read_name(message, at)?;
    let Some(rtype) = read_u16(message, after) else {
        return Err(MessageError::Truncated("record type"));
    };
    let Some(rclass) = read_u16(message, after + 2) else {
        return Err(MessageError::Truncated("record class"));
    };
    let Some(ttl) = read_u32(message, after + 4) else {
        return Err(MessageError::Truncated("record ttl"));
    };
    let Some(length) = read_u16(message, after + 8) else {
        return Err(MessageError::Truncated("record"));
    };
    let length = length as usize;
    let data: usize = after + 10;
    if total - data < length {
        return Err(MessageError::Truncated("record data"));
    }
    let end: usize = data + length;
    if rclass == CLASS_IN {
        if let Some(address) = address_of(rtype, vstd::slice::slice_subrange(message, data, end)) {
            return Ok((Some(Record { name, address, ttl }), end));
        }
    }
    Ok((None, end))
}

/// Step over questions.
fn skip_questions(message: &[u8], count: u16) -> (end: Result<usize, MessageError>)
    requires
        message@.len() >= HEADER_LEN,
    ensures
        match end {
            Ok(end) => past_questions(message@, HEADER_LEN as int, count as int) == Ok::<
                _,
                MessageError,
            >(end as int),
            Err(error) => past_questions(message@, HEADER_LEN as int, count as int) == Err::<
                int,
                _,
            >(error),
        },
{
    let mut at: usize = HEADER_LEN;
    let mut left: u16 = count;
    while left > 0
        invariant
            past_questions(message@, HEADER_LEN as int, count as int) == past_questions(
                message@,
                at as int,
                left as int,
            ),
        decreases left,
    {
        let (_, after) = read_name(message, at)?;
        // Type and class follow the name in a question, and neither is needed here.
        at = if message.len() - after >= 4 {
            after + 4
        } else {
            message.len()
        };
        left -= 1;
    }
    Ok(at)
}

/// Read the addresses a reply carries, in the order it carries them.
///
/// Only the answer section, and only `A` and `AAAA` within it. The authority and additional
/// sections may name addresses too, but those are not answers to the question that was asked.
///
/// A record this reader does not understand is skipped by its declared length rather than refused:
/// an unknown type is ordinary, and a reply that mixes one in is still a good reply.
pub fn read_answers(message: &[u8]) -> (records: Result<Vec<Record>, MessageError>)
    ensures
        match records {
            Ok(records) => answers(message@) == Ok::<_, MessageError>(answers_of(records@)),
            Err(error) => answers(message@) == Err::<Seq<Answer>, _>(error),
        },
{
    if message.len() < HEADER_LEN {
        return Err(MessageError::Truncated("header"));
    }
    let start = skip_questions(message, be16(message[4], message[5]))?;
    let count = be16(message[6], message[7]);
    let ghost whole = records_from(message@, start as int, count as int);
    let mut found: Vec<Record> = Vec::new();
    let mut at: usize = start;
    let mut left: u16 = count;
    proof {
        if let Ok(rest) = whole {
            assert(answers_of(found@) + rest =~= rest);
        }
    }
    while left > 0
        invariant
            whole == match records_from(message@, at as int, left as int) {
                Ok(rest) => Ok(answers_of(found@) + rest),
                Err(error) => Err(error),
            },
            answers(message@) == whole,
        decreases left,
    {
        let (record, end) = read_record(message, at)?;
        let ghost before = found@;
        if let Some(record) = record {
            found.push(record);
            proof {
                assert(answers_of(found@) =~= answers_of(before).push(record@));
                if let Ok(rest) = records_from(message@, end as int, left - 1) {
                    assert(answers_of(found@) + rest =~= answers_of(before) + (seq![record@]
                        + rest));
                }
            }
        }
        at = end;
        left -= 1;
    }
    assert(answers_of(found@) + Seq::<Answer>::empty() =~= answers_of(found@));
    Ok(found)
}

/// Labels as a message writes them when it does not compress: each behind its length, then a zero.
pub open spec fn written(labels: Seq<Seq<u8>>) -> Seq<u8>
    decreases labels.len(),
{
    if labels.len() == 0 {
        seq![0u8]
    } else {
        seq![labels[0].len() as u8] + labels[0] + written(labels.drop_first())
    }
}

/// How many bytes labels take, each with its length byte.
pub open spec fn label_bytes(labels: Seq<Seq<u8>>) -> nat
    decreases labels.len(),
{
    if labels.len() == 0 {
        0
    } else {
        labels[0].len() + 1 + label_bytes(labels.drop_first())
    }
}

/// Whether labels may stand in a name: none empty, none over 63 bytes, 255 together.
pub open spec fn may_be_a_name(labels: Seq<Seq<u8>>) -> bool {
    &&& forall|i: int| 0 <= i < labels.len() ==> 1 <= (#[trigger] labels[i]).len() <= MAX_LABEL
    &&& label_bytes(labels) <= MAX_NAME
}

/// A name that stands in a message uncompressed is read back as it was written, and ends where its
/// zero does.
pub proof fn law_a_written_name_is_read_back(
    before: Seq<u8>,
    labels: Seq<Seq<u8>>,
    behind: Seq<u8>,
)
    requires
        may_be_a_name(labels),
    ensures
        name_at(before + written(labels) + behind, before.len() as int) == Ok::<_, MessageError>(
            (dotted(labels), (before.len() + written(labels).len()) as int),
        ),
{
    let message = before + written(labels) + behind;
    assert(message.subrange(before.len() as int, (before.len() + written(labels).len()) as int)
        =~= written(labels));
    lemma_written_is_read(message, before.len() as int, 0, 0, labels);
}

proof fn lemma_written_is_read(
    message: Seq<u8>,
    at: int,
    jumps: int,
    seen: int,
    labels: Seq<Seq<u8>>,
)
    requires
        0 <= at <= at + written(labels).len() <= message.len(),
        message.subrange(at, at + written(labels).len()) == written(labels),
        forall|i: int| 0 <= i < labels.len() ==> 1 <= (#[trigger] labels[i]).len() <= MAX_LABEL,
        0 <= seen,
        seen + label_bytes(labels) <= MAX_NAME,
    ensures
        labels_at(message, at, jumps, seen) == Ok::<_, MessageError>(
            (labels, at + written(labels).len()),
        ),
    decreases labels.len(),
{
    let here = message.subrange(at, at + written(labels).len());
    if labels.len() == 0 {
        assert(written(labels).len() == 1);
        assert(here[0] == message[at]);
        assert(labels =~= Seq::empty());
    } else {
        let label = labels[0];
        let length = label.len() as int;
        let rest = labels.drop_first();
        let whole = written(labels);
        assert(whole == seq![length as u8] + label + written(rest));
        assert(whole.len() == 1 + length + written(rest).len());
        assert(here[0] == message[at]);
        assert(whole[0] == length as u8);
        assert forall|i: int| 0 <= i < rest.len() implies 1 <= (#[trigger] rest[i]).len()
            <= MAX_LABEL by {
            assert(rest[i] == labels[i + 1]);
        }
        assert(message.subrange(at + 1, at + 1 + length) =~= label) by {
            assert forall|i: int| 0 <= i < length implies message[at + 1 + i] == label[i] by {
                assert(here[1 + i] == message[at + 1 + i]);
                assert(whole[1 + i] == label[i]);
            }
        }
        let next = at + 1 + length;
        assert(message.subrange(next, next + written(rest).len()) =~= written(rest)) by {
            assert forall|i: int| 0 <= i < written(rest).len() implies message[next + i]
                == written(rest)[i] by {
                assert(here[1 + length + i] == message[next + i]);
                assert(whole[1 + length + i] == written(rest)[i]);
            }
        }
        lemma_written_is_read(message, next, jumps, seen + length + 1, rest);
        assert(seq![label] + rest =~= labels);
    }
}

/// A compressed name ends, for whoever walks the message, two bytes on from where it was written,
/// wherever its pointer led.
pub proof fn law_a_compressed_name_ends_where_it_was_written(message: Seq<u8>, at: int)
    requires
        0 <= at < message.len(),
        message[at] >= POINTER,
    ensures
        name_at(message, at) matches Ok((_, end)) ==> end == at + 2,
{
}

/// A pointer that does not lead backwards is refused.
pub proof fn law_a_pointer_leads_backwards_or_is_refused(message: Seq<u8>, at: int)
    requires
        0 <= at,
        at + 1 < message.len(),
        message[at] >= POINTER,
        (message[at] - POINTER) * 256 + message[at + 1] >= at,
    ensures
        name_at(message, at) is Err,
{
}

/// A name that is read is lower case and no longer than the protocol's limit, whatever the message.
pub proof fn law_a_name_is_bounded_and_lower_case(message: Seq<u8>, at: int)
    ensures
        name_at(message, at) matches Ok((name, _)) ==> name.len() < MAX_NAME
            && crate::text::lower(name) == name,
{
    if let Ok((labels, _)) = labels_at(message, at, 0, 0) {
        lemma_labels_bounded(message, at, 0, 0);
        lemma_dotted_len(labels);
        lemma_dotted_lower(labels);
    }
}

proof fn lemma_labels_bounded(message: Seq<u8>, at: int, jumps: int, seen: int)
    requires
        0 <= seen <= MAX_NAME,
    ensures
        labels_at(message, at, jumps, seen) matches Ok((labels, _)) ==> label_bytes(labels) + seen
            <= MAX_NAME,
    decreases MAX_JUMPS - jumps, MAX_NAME - seen,
{
    if 0 <= at < message.len() {
        if message[at] >= POINTER {
            if at + 1 < message.len() {
                let target = (message[at] - POINTER) * 256 + message[at + 1];
                if target < at && jumps < MAX_JUMPS {
                    lemma_labels_bounded(message, target, jumps + 1, seen);
                }
            }
        } else if 0 < message[at] <= MAX_LABEL {
            let length = message[at] as int;
            if seen + length + 1 <= MAX_NAME && at + 1 + length <= message.len() {
                lemma_labels_bounded(message, at + 1 + length, jumps, seen + length + 1);
                if let Ok((rest, _)) = labels_at(
                    message,
                    at + 1 + length,
                    jumps,
                    seen + length + 1,
                ) {
                    let all = seq![message.subrange(at + 1, at + 1 + length)] + rest;
                    assert(all.drop_first() =~= rest);
                }
            }
        }
    }
}

/// Bytes of labels counted from the other end.
proof fn lemma_label_bytes_last(labels: Seq<Seq<u8>>)
    requires
        labels.len() > 0,
    ensures
        label_bytes(labels) == label_bytes(labels.drop_last()) + labels.last().len() + 1,
    decreases labels.len(),
{
    if labels.len() == 1 {
        assert(labels.drop_first() =~= Seq::empty());
        assert(labels.drop_last() =~= Seq::empty());
    } else {
        lemma_label_bytes_last(labels.drop_first());
        assert(labels.drop_first().drop_last() =~= labels.drop_last().drop_first());
    }
}

proof fn lemma_dotted_len(labels: Seq<Seq<u8>>)
    ensures
        labels.len() == 0 ==> dotted(labels).len() == 0,
        labels.len() > 0 ==> dotted(labels).len() + 1 == label_bytes(labels),
    decreases labels.len(),
{
    if labels.len() > 0 {
        lemma_label_bytes_last(labels);
        lemma_dotted_len(labels.drop_last());
        if labels.len() == 1 {
            assert(labels.drop_last() =~= Seq::empty());
        }
    }
}

proof fn lemma_dotted_lower(labels: Seq<Seq<u8>>)
    ensures
        crate::text::lower(dotted(labels)) == dotted(labels),
    decreases labels.len(),
{
    let name = dotted(labels);
    if labels.len() > 1 {
        lemma_dotted_lower(labels.drop_last());
        let head = dotted(labels.drop_last());
        assert forall|i: int| 0 <= i < name.len() implies lower_char(#[trigger] name[i])
            == name[i] by {
            if i < head.len() {
                assert(crate::text::lower(head)[i] == lower_char(head[i]));
                assert(name[i] == head[i]);
            }
        }
    }
    assert(crate::text::lower(name) =~= name);
}

} // verus!
