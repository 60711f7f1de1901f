//! Which program asked.
//!
//! A query arrives from a port on loopback, and the operating system knows which process owns that
//! port. This does not allow routing by process: a routing table decides by destination alone. It
//! allows a policy rule of the form "when this program asks, the answer becomes a route"; the
//! program's traffic then follows that route like any other.
//!
//! Two caches. The port table is re-read on a short timer because it changes constantly; a process
//! image path never changes, so it is held until the tables stop mentioning the process, or there are
//! too many of them.

use std::collections::HashMap;

use vstd::prelude::*;
use vstd::std_specs::hash::*;
use crate::address::SocketAddr;
use crate::text::{chars_of, lower, lowered, text_of};

verus! {

/// How long a reading of the port table is reused, in milliseconds.
pub const TABLE_TTL: u64 = 1000;

/// The most process images remembered.
pub const MAX_IMAGES: usize = 512;

/// The loopback address, as a number.
pub const LOOPBACK: u32 = 0x7f00_0001;

/// A program, in the two forms a policy may name it by.
#[derive(Debug, PartialEq, Eq)]
pub struct Program {
    /// The executable's full path, lowercase.
    pub path: String,
    /// Its file name alone, lowercase.
    pub name: String,
}

/// A program as plain values.
pub ghost struct ProgramState {
    pub path: Seq<char>,
    pub name: Seq<char>,
}

impl View for Program {
    type V = ProgramState;

    open spec fn view(&self) -> ProgramState {
        ProgramState { path: self.path@, name: self.name@ }
    }
}

/// What stands behind the last separator of a path, or the whole where there is none.
pub open spec fn file_name(path: Seq<char>) -> Seq<char>
    decreases path.len(),
{
    if path.len() == 0 || path.last() == '\\' || path.last() == '/' {
        Seq::empty()
    } else {
        file_name(path.drop_last()).push(path.last())
    }
}

/// The program at a path.
pub open spec fn program_at(path: Seq<char>) -> ProgramState {
    ProgramState { path: lower(path), name: file_name(lower(path)) }
}

impl Program {
    pub fn from_path(path: &str) -> (program: Self)
        ensures
            program@ == program_at(path@),
    {
        let path = lowered(path);
        let chars = chars_of(path.as_str());
        let mut start: usize = chars.len();
        let ghost whole = path@;
        assert(whole.skip(start as int) =~= Seq::empty());
        assert(whole.take(start as int) =~= whole);
        assert(file_name(whole) + Seq::empty() =~= file_name(whole));
        while start > 0 && chars[start - 1] != '\\' && chars[start - 1] != '/'
            invariant
                chars@ == whole,
                start <= chars.len(),
                file_name(whole) == file_name(whole.take(start as int)) + whole.skip(start as int),
            decreases start,
        {
            assert(whole.take(start as int).drop_last() =~= whole.take(start - 1));
            assert(file_name(whole.take(start - 1)).push(whole[start - 1]) + whole.skip(
                start as int,
            ) =~= file_name(whole.take(start - 1)) + whole.skip(start - 1));
            start -= 1;
        }
        let name = vstd::slice::slice_subrange(chars.as_slice(), start, chars.len());
        assert(name@ =~= file_name(whole));
        let name = text_of(name);
        Program { path, name }
    }

    /// The same program again.
    fn copied(&self) -> (copy: Self)
        ensures
            copy@ == self@,
    {
        Program { path: self.path.clone(), name: self.name.clone() }
    }
}

/// Where a query came from, and over which protocol.
///
/// The protocol is carried because the answer depends on it: there is a table of port owners per
/// protocol, and a TCP port looked up in the UDP table can name whichever unrelated program holds
/// that number on the other protocol.
#[derive(Debug, Clone, Copy, PartialEq, Eq, Structural)]
pub enum From {
    Udp(SocketAddr),
    Tcp(SocketAddr),
}

impl From {
    pub fn port(self) -> (port: u16)
        ensures
            port == port_asked(self),
    {
        match self {
            From::Udp(address) => address.port,
            From::Tcp(address) => address.port,
        }
    }
}

/// The port a query came from.
pub open spec fn port_asked(from: From) -> u16 {
    match from {
        From::Udp(address) => address.port,
        From::Tcp(address) => address.port,
    }
}

/// One row of a port table, as the operating system stores it: address and port in network order.
#[derive(Debug, Clone, Copy, PartialEq, Eq, Structural)]
pub struct Row {
    pub local_address: u32,
    pub local_port: u32,
    pub pid: u32,
}

/// The port out of the double word it is stored in: the number is in network order in the low half,
/// and the high half is not part of it.
pub fn port_of(stored: u32) -> (port: u16)
    ensures
        port == stored_port(stored),
{
    ((stored % 256) * 256 + (stored / 256) % 256) as u16
}

/// The port in a stored double word.
pub open spec fn stored_port(stored: u32) -> u16 {
    ((stored % 256) * 256 + (stored / 256) % 256) as u16
}

/// The address in a stored double word: its four bytes, the last one first.
pub open spec fn stored_address(stored: u32) -> u32 {
    ((stored % 256) * 16777216 + (stored / 256) % 256 * 65536 + (stored / 65536) % 256 * 256
        + stored / 16777216) as u32
}

fn address_of(stored: u32) -> (address: u32)
    ensures
        address == stored_address(stored),
{
    (stored % 256) * 16777216 + (stored / 256) % 256 * 65536 + (stored / 65536) % 256 * 256 + stored
        / 16777216
}

/// Whether a row may be the one that asked: its socket is bound to loopback, or, where a protocol
/// has such rows, to every address.
pub open spec fn may_have_asked(row: Row, wildcard: bool) -> bool {
    stored_address(row.local_address) == LOOPBACK || (wildcard && stored_address(row.local_address)
        == 0)
}

/// Local port → owning process, a later row in place of an earlier one.
pub open spec fn owners_of(rows: Seq<Row>, wildcard: bool) -> Map<u16, u32>
    decreases rows.len(),
{
    if rows.len() == 0 {
        Map::empty()
    } else if may_have_asked(rows.last(), wildcard) {
        owners_of(rows.drop_last(), wildcard).insert(
            stored_port(rows.last().local_port),
            rows.last().pid,
        )
    } else {
        owners_of(rows.drop_last(), wildcard)
    }
}

/// The owners that the rows of a table name. Only rows that a query to this machine's own resolver
/// can have come from are kept.
fn read_owners(rows: &[Row], wildcard: bool) -> (owners: HashMap<u16, u32>)
    ensures
        owners@ == owners_of(rows@, wildcard),
{
    broadcast use group_hash_axioms;

    let mut owners: HashMap<u16, u32> = HashMap::new();
    let mut i: usize = 0;
    assert(rows@.take(0) =~= Seq::empty());
    while i < rows.len()
        invariant
            i <= rows.len(),
            owners@ == owners_of(rows@.take(i as int), wildcard),
        decreases rows.len() - i,
    {
        broadcast use group_hash_axioms;

        let row = rows[i];
        assert(rows@.take(i + 1).drop_last() =~= rows@.take(i as int));
        let address = address_of(row.local_address);
        if address == LOOPBACK || (wildcard && address == 0) {
            owners.insert(port_of(row.local_port), row.pid);
        }
        i += 1;
    }
    assert(rows@.take(i as int) =~= rows@);
    owners
}

/// The processes that the rows of a table mention, row by row.
pub open spec fn processes_of(rows: Seq<Row>) -> Seq<u32> {
    rows.map_values(|row: Row| row.pid)
}

fn read_processes(rows: &[Row]) -> (processes: Vec<u32>)
    ensures
        processes@ == processes_of(rows@),
{
    let mut processes: Vec<u32> = Vec::new();
    let mut i: usize = 0;
    while i < rows.len()
        invariant
            i <= rows.len(),
            processes@ == processes_of(rows@.take(i as int)),
        decreases rows.len() - i,
    {
        processes.push(rows[i].pid);
        i += 1;
        assert(processes@ =~= processes_of(rows@.take(i as int)));
    }
    assert(rows@.take(i as int) =~= rows@);
    processes
}

/// One reading of a protocol's port table.
#[derive(Debug)]
struct Snapshot {
    at: u64,
    owners: HashMap<u16, u32>,
    processes: Vec<u32>,
}

/// A reading as plain values.
pub ghost struct Reading {
    pub at: u64,
    pub owners: Map<u16, u32>,
    pub processes: Seq<u32>,
}

/// What reading the rows of a table comes to.
pub open spec fn reading_of(rows: Seq<Row>, wildcard: bool, now: u64) -> Reading {
    Reading { at: now, owners: owners_of(rows, wildcard), processes: processes_of(rows) }
}

/// Whether a reading mentions a process.
pub open spec fn mentions(reading: Option<Reading>, pid: u32) -> bool {
    reading matches Some(reading) && reading.processes.contains(pid)
}

/// The images of processes that the table of one protocol or the other still mentions.
pub open spec fn still_mentioned(
    images: Map<u32, ProgramState>,
    udp: Option<Reading>,
    tcp: Option<Reading>,
) -> Map<u32, ProgramState> {
    images.restrict(Set::new(|pid: u32| mentions(udp, pid) || mentions(tcp, pid)))
}

impl View for Snapshot {
    type V = Reading;

    closed spec fn view(&self) -> Reading {
        Reading { at: self.at, owners: self.owners@, processes: self.processes@ }
    }
}

/// Who is asking, looked up by the port a query came from.
#[derive(Debug)]
pub struct Askers {
    udp: Option<Snapshot>,
    tcp: Option<Snapshot>,
    images: HashMap<u32, Program>,
}

/// What finding out who asked needs next.
#[derive(Debug)]
pub enum Lookup {
    /// Read the port table of the protocol the query arrived over.
    ReadTable,
    /// Read the image path of this process.
    ReadImage(u32),
    /// It cannot be established.
    Unknown,
    Known(Program),
}

/// A lookup as plain values.
pub ghost enum LookupState {
    ReadTable,
    ReadImage(u32),
    Unknown,
    Known(ProgramState),
}

impl View for Lookup {
    type V = LookupState;

    open spec fn view(&self) -> LookupState {
        match *self {
            Lookup::ReadTable => LookupState::ReadTable,
            Lookup::ReadImage(pid) => LookupState::ReadImage(pid),
            Lookup::Unknown => LookupState::Unknown,
            Lookup::Known(program) => LookupState::Known(program@),
        }
    }
}

/// Whether a reading may still be used.
pub open spec fn is_fresh(reading: Option<Reading>, now: u64) -> bool {
    match reading {
        None => false,
        Some(reading) => now < reading.at || now - reading.at < TABLE_TTL,
    }
}

/// What finding out who owns a port needs next, from a reading and the images known.
pub open spec fn looked_up(
    reading: Option<Reading>,
    images: Map<u32, ProgramState>,
    port: u16,
    now: u64,
) -> LookupState {
    if !is_fresh(reading, now) {
        LookupState::ReadTable
    } else if !reading->0.owners.contains_key(port) {
        LookupState::Unknown
    } else {
        let pid = reading->0.owners[port];
        if images.contains_key(pid) {
            LookupState::Known(images[pid])
        } else {
            LookupState::ReadImage(pid)
        }
    }
}

/// Images with one more. A process identifier is reused, and quickly, so the bound is reached by
/// forgetting everything rather than by keeping the oldest.
pub open spec fn remembered(
    images: Map<u32, ProgramState>,
    pid: u32,
    program: ProgramState,
) -> Map<u32, ProgramState> {
    if images.len() >= MAX_IMAGES {
        Map::<u32, ProgramState>::empty().insert(pid, program)
    } else {
        images.insert(pid, program)
    }
}

impl Askers {
    /// The last reading of the UDP table.
    pub closed spec fn udp_reading(&self) -> Option<Reading> {
        match self.udp {
            Some(snapshot) => Some(snapshot@),
            None => None,
        }
    }

    /// The last reading of the TCP table.
    pub closed spec fn tcp_reading(&self) -> Option<Reading> {
        match self.tcp {
            Some(snapshot) => Some(snapshot@),
            None => None,
        }
    }

    /// The last reading of the table of the protocol a query arrived over.
    pub open spec fn reading(&self, from: From) -> Option<Reading> {
        match from {
            From::Udp(_) => self.udp_reading(),
            From::Tcp(_) => self.tcp_reading(),
        }
    }

    /// The processes whose images are known.
    pub closed spec fn known(&self) -> Map<u32, ProgramState> {
        self.images@.map_values(|program: Program| program@)
    }

    /// The images are few.
    pub closed spec fn wf(&self) -> bool {
        self.images@.dom().finite()
    }

    /// An empty set of readings. The port tables are read on the first question, not before.
    pub fn new() -> (askers: Self)
        ensures
            askers.wf(),
            forall|from: From| askers.reading(from) is None,
            askers.known() == Map::<u32, ProgramState>::empty(),
    {
        broadcast use group_hash_axioms;

        let askers = Askers { udp: None, tcp: None, images: HashMap::new() };
        assert(askers.known() =~= Map::empty());
        askers
    }

    /// The program that owns the port a query came from, or what has to be read to find it out.
    ///
    /// `Unknown` is an ordinary answer, not an error: a socket closed between sending and this
    /// lookup, a process that ended, or a program this one may not open.
    pub fn of_port(&self, from: From, now: u64) -> (lookup: Lookup)
        ensures
            lookup@ == looked_up(self.reading(from), self.known(), port_asked(from), now),
    {
        broadcast use group_hash_axioms;

        let held = match from {
            From::Udp(_) => &self.udp,
            From::Tcp(_) => &self.tcp,
        };
        match held {
            None => Lookup::ReadTable,
            Some(snapshot) => {
                if now >= snapshot.at && now - snapshot.at >= TABLE_TTL {
                    return Lookup::ReadTable;
                }
                let port = from.port();
                match snapshot.owners.get(&port) {
                    None => Lookup::Unknown,
                    Some(pid) => match self.images.get(pid) {
                        Some(program) => Lookup::Known(program.copied()),
                        None => Lookup::ReadImage(*pid),
                    },
                }
            },
        }
    }

    /// The port table of a protocol was read. An image is held until the tables stop mentioning its
    /// process, so that one that has ended is not what a later program is taken for.
    pub fn table_read(&mut self, from: From, rows: &[Row], now: u64)
        requires
            old(self).wf(),
        ensures
            final(self).wf(),
            final(self).udp_reading() == if from is Udp {
                Some(reading_of(rows@, true, now))
            } else {
                old(self).udp_reading()
            },
            final(self).tcp_reading() == if from is Tcp {
                Some(reading_of(rows@, false, now))
            } else {
                old(self).tcp_reading()
            },
            final(self).known() == still_mentioned(
                old(self).known(),
                final(self).udp_reading(),
                final(self).tcp_reading(),
            ),
    {
        broadcast use group_hash_axioms;

        let processes = read_processes(rows);
        match from {
            From::Udp(_) => {
                let owners = read_owners(rows, true);
                self.udp = Some(Snapshot { at: now, owners, processes });
            },
            // A connected socket is bound to a real address, so unlike the UDP table there is no
            // wildcard row to admit here.
            From::Tcp(_) => {
                let owners = read_owners(rows, false);
                self.tcp = Some(Snapshot { at: now, owners, processes });
            },
        }
        let mut kept: HashMap<u32, Program> = HashMap::new();
        let ghost before = self.images@;
        if let Some(snapshot) = &self.udp {
            keep_images(&self.images, &snapshot.processes, &mut kept);
        }
        if let Some(snapshot) = &self.tcp {
            keep_images(&self.images, &snapshot.processes, &mut kept);
        }
        self.images = kept;
        assert(self.known() =~= still_mentioned(
            before.map_values(|program: Program| program@),
            self.udp_reading(),
            self.tcp_reading(),
        ));
    }

    /// The image path of a process was read.
    pub fn image_read(&mut self, pid: u32, path: &str) -> (program: Program)
        requires
            old(self).wf(),
        ensures
            final(self).wf(),
            program@ == program_at(path@),
            final(self).known() == remembered(old(self).known(), pid, program_at(path@)),
            forall|from: From|
                #![trigger final(self).reading(from)]
                final(self).reading(from) == old(self).reading(from),
    {
        broadcast use group_hash_axioms;

        let ghost before = self.known();
        assert(before.dom() =~= self.images@.dom());
        let program = Program::from_path(path);
        if self.images.len() >= MAX_IMAGES {
            self.images.clear();
        }
        self.images.insert(pid, program.copied());
        assert(self.known() =~= remembered(before, pid, program@));
        program
    }
}

/// Keep the images of some processes, beside those kept already.
fn keep_images(
    images: &HashMap<u32, Program>,
    processes: &Vec<u32>,
    kept: &mut HashMap<u32, Program>,
)
    requires
        images@.dom().finite(),
        old(kept)@.dom().finite(),
    ensures
        final(kept)@.dom().finite(),
        forall|pid: u32| #[trigger]
            final(kept)@.contains_key(pid) <==> old(kept)@.contains_key(pid) || (
            images@.contains_key(pid) && processes@.contains(pid)),
        forall|pid: u32| #[trigger]
            final(kept)@.contains_key(pid) ==> final(kept)@[pid]@ == if images@.contains_key(pid)
                && processes@.contains(pid) {
                images@[pid]@
            } else {
                old(kept)@[pid]@
            },
{
    broadcast use group_hash_axioms;

    let ghost before = kept@;
    let mut i: usize = 0;
    while i < processes.len()
        invariant
            i <= processes.len(),
            kept@.dom().finite(),
            forall|pid: u32| #[trigger]
                kept@.contains_key(pid) <==> before.contains_key(pid) || (images@.contains_key(pid)
                    && processes@.take(i as int).contains(pid)),
            forall|pid: u32| #[trigger]
                kept@.contains_key(pid) ==> kept@[pid]@ == if images@.contains_key(pid)
                    && processes@.take(i as int).contains(pid) {
                    images@[pid]@
                } else {
                    before[pid]@
                },
        decreases processes.len() - i,
    {
        broadcast use group_hash_axioms;

        let pid = processes[i];
        assert(processes@.take(i + 1) =~= processes@.take(i as int).push(pid));
        assert forall|other: u32| #[trigger]
            processes@.take(i + 1).contains(other) <==> processes@.take(i as int).contains(other)
                || other == pid by {
            if processes@.take(i as int).contains(other) {
                let k = choose|k: int|
                    0 <= k < i && #[trigger] processes@.take(i as int)[k] == other;
                assert(processes@.take(i + 1)[k] == other);
            }
            if other == pid {
                assert(processes@.take(i + 1)[i as int] == other);
            }
        }
        if let Some(program) = images.get(&pid) {
            kept.insert(pid, program.copied());
        }
        i += 1;
    }
    assert(processes@.take(i as int) =~= processes@);
}

impl Default for Askers {
    fn default() -> (askers: Self)
        ensures
            askers.wf(),
            forall|from: From| askers.reading(from) is None,
            askers.known() == Map::<u32, ProgramState>::empty(),
    {
        Askers::new()
    }
}

/// A table is not read again within its lifetime.
pub proof fn law_a_table_is_not_read_again_within_its_lifetime(
    reading: Reading,
    images: Map<u32, ProgramState>,
    port: u16,
    now: u64,
)
    requires
        reading.at <= now < reading.at + TABLE_TTL,
    ensures
        looked_up(Some(reading), images, port, now) !is ReadTable,
{
}

/// An image is held while a table mentions its process, and no longer: what a reading leaves is what
/// was known of the processes mentioned, as it was.
pub proof fn law_an_image_is_held_while_its_process_is_mentioned(
    images: Map<u32, ProgramState>,
    udp: Option<Reading>,
    tcp: Option<Reading>,
    pid: u32,
)
    ensures
        ({
            let left = still_mentioned(images, udp, tcp);
            &&& left.contains_key(pid) <==> images.contains_key(pid) && (mentions(udp, pid)
                || mentions(tcp, pid))
            &&& left.contains_key(pid) ==> left[pid] == images[pid]
        }),
{
}

/// The high half of a stored port is not part of it.
pub proof fn law_the_high_half_is_not_part_of_a_port(low: u16, high: u16)
    ensures
        stored_port((high * 65536 + low) as u32) == stored_port(low as u32),
{
    let stored = (high * 65536 + low) as u32;
    assert(stored % 256 == low % 256);
    assert((stored / 256) % 256 == (low as u32 / 256) % 256);
}

/// A program's file name is what stands behind the last separator of its path, of either kind, in
/// lower case, and the whole path where there is none.
pub proof fn law_a_file_name_is_what_is_behind_the_last_separator(
    before: Seq<char>,
    separator: char,
    name: Seq<char>,
)
    requires
        separator == '\\' || separator == '/',
        forall|i: int| 0 <= i < name.len() ==> #[trigger] name[i] != '\\' && name[i] != '/',
    ensures
        file_name(before.push(separator) + name) == name,
        file_name(name) == name,
    decreases name.len(),
{
    let whole = before.push(separator) + name;
    if name.len() == 0 {
        assert(whole =~= before.push(separator));
        assert(file_name(whole) =~= name);
        assert(file_name(name) =~= name);
    } else {
        let rest = name.drop_last();
        assert forall|i: int| 0 <= i < rest.len() implies #[trigger] rest[i] != '\\' && rest[i]
            != '/' by {
            assert(rest[i] == name[i]);
        }
        law_a_file_name_is_what_is_behind_the_last_separator(before, separator, rest);
        assert(whole.drop_last() =~= before.push(separator) + rest);
        assert(whole.last() == name.last());
        assert(name[name.len() - 1] == name.last());
        assert(rest.push(name.last()) =~= name);
    }
}

/// A stored port is its two bytes the other way round, and a stored address its four.
pub proof fn law_stored_numbers_are_the_other_way_round(a: u8, b: u8, c: u8, d: u8)
    ensures
        stored_port((b * 256 + a) as u32) == a * 256 + b,
        stored_address((((d * 256 + c) * 256 + b) * 256 + a) as u32) == ((a * 256 + b) * 256 + c)
            * 256 + d,
{
    let stored = (((d * 256 + c) * 256 + b) * 256 + a) as u32;
    assert(stored as int % 256 == a);
    assert(stored as int / 256 % 256 == b);
    assert(stored as int / 65536 % 256 == c);
    assert(stored as int / 16777216 == d);
}

/// A port belongs to the process of the last row that names it, among the rows bound to 127.0.0.1 and,
/// where the protocol has such rows, to every address; where there is none it belongs to nobody. Rows
/// bound to any other address say nothing.
pub proof fn law_a_port_belongs_to_the_last_row_that_names_it(
    rows: Seq<Row>,
    row: Row,
    wildcard: bool,
    port: u16,
)
    ensures
        ({
            let bound = stored_address(row.local_address);
            let counts = bound == 0x7f00_0001 || (wildcard && bound == 0);
            let before = owners_of(rows, wildcard);
            let after = owners_of(rows.push(row), wildcard);
            &&& counts && stored_port(row.local_port) == port ==> after.contains_key(port)
                && after[port] == row.pid
            &&& !(counts && stored_port(row.local_port) == port) ==> (after.contains_key(port)
                <==> before.contains_key(port)) && (before.contains_key(port) ==> after[port]
                == before[port])
        }),
        !owners_of(Seq::empty(), wildcard).contains_key(port),
{
    assert(rows.push(row).drop_last() =~= rows);
}

/// Who asked is the program of the process that owns the port in a reading of the right table that is
/// still fresh: nothing is answered from a reading that is not, nothing is made up for a port nobody
/// owns, and an image is read where it is not known.
pub proof fn law_who_asked_is_who_owns_the_port(
    reading: Reading,
    images: Map<u32, ProgramState>,
    port: u16,
    now: u64,
)
    requires
        reading.at <= now,
    ensures
        now - reading.at >= TABLE_TTL ==> looked_up(Some(reading), images, port, now) is ReadTable,
        now - reading.at < TABLE_TTL ==> {
            let found = looked_up(Some(reading), images, port, now);
            &&& !reading.owners.contains_key(port) ==> found is Unknown
            &&& reading.owners.contains_key(port) && images.contains_key(reading.owners[port])
                ==> found == LookupState::Known(images[reading.owners[port]])
            &&& reading.owners.contains_key(port) && !images.contains_key(reading.owners[port])
                ==> found == LookupState::ReadImage(reading.owners[port])
        },
        looked_up(None, images, port, now) is ReadTable,
{
}

/// An image is remembered beside those that are known, up to 512 of them; past that it is the only one
/// that is.
pub proof fn law_an_image_is_remembered_beside_the_others(
    images: Map<u32, ProgramState>,
    pid: u32,
    program: ProgramState,
    other: u32,
)
    ensures
        ({
            let after = remembered(images, pid, program);
            &&& after.contains_key(pid) && after[pid] == program
            &&& other != pid && images.len() < 512 ==> (after.contains_key(other)
                <==> images.contains_key(other)) && (images.contains_key(other) ==> after[other]
                == images[other])
            &&& other != pid && images.len() >= 512 ==> !after.contains_key(other)
        }),
{
}

/// A table is good for a second after it was read, and a program is known by its path in lower case
/// and what stands behind the last separator of that.
pub proof fn law_a_table_is_good_for_a_second(
    reading: Reading,
    now: u64,
    path: Seq<char>,
    rows: Seq<Row>,
    wildcard: bool,
    i: int,
)
    ensures
        is_fresh(Some(reading), now) <==> now < reading.at + 1_000,
        !is_fresh(None, now),
        program_at(path).path == lower(path),
        program_at(path).name == file_name(lower(path)),
        ({
            let read = reading_of(rows, wildcard, now);
            &&& read.at == now
            &&& read.owners == owners_of(rows, wildcard)
            &&& 0 <= i < rows.len() ==> mentions(Some(read), rows[i].pid)
        }),
{
    let read = reading_of(rows, wildcard, now);
    if 0 <= i < rows.len() {
        assert(read.processes[i] == rows[i].pid);
    }
}

} // verus!
