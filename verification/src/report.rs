//! The lines a running core prints about itself.

use vstd::prelude::*;
use vstd::string::StringExecFns;
use crate::queue::QueueStats;
use crate::state::{Counters, PathReading, Phase};
use crate::text::{between, decimal, digits, joined, texts};
use crate::transport::carrier::{choice_name, Choice};
use crate::transport::connect_ip::stages_shown;
use crate::transport::handshake::{handshake_name, Handshake, Presented};
use crate::warp::api::{CONNECT_SNI, ENDPOINT_H3_V4};
use crate::warp::identity::Identity;

verus! {

/// How far apart the numbers of fifty-three significant bits are around a number.
pub open spec fn spacing(n: nat) -> nat
    decreases n,
{
    if n < 0x20_0000_0000_0000 {
        1
    } else {
        2 * spacing(n / 2)
    }
}

/// A number of units divided up, to the nearest whole one: where two are as near, the even one.
pub open spec fn nearest(n: nat, unit: nat) -> nat {
    let whole = n / unit;
    let over = n % unit;
    if 2 * over > unit || (2 * over == unit && whole % 2 == 1) {
        whole + 1
    } else {
        whole
    }
}

/// A number to fifty-three significant bits, which is what a measurement in binary keeps.
pub open spec fn significant(n: nat) -> nat {
    nearest(n, spacing(n)) * spacing(n)
}

/// So many tenths of a unit that a number comes to.
pub open spec fn tenths(n: nat, unit: nat) -> nat {
    nearest(significant(n) * 10, unit)
}

/// A number of units with one digit behind the point.
pub open spec fn to_one_place(n: nat, unit: nat) -> Seq<char> {
    digits(tenths(n, unit) / 10) + "."@ + digits(tenths(n, unit) % 10)
}

proof fn lemma_spacing(n: nat)
    requires
        n < 0x1_0000_0000_0000_0000,
    ensures
        0 < spacing(n) <= 2048,
{
    reveal_with_fuel(spacing, 12);
}

/// A number to fifty-three significant bits.
fn to_significant(n: u64) -> (kept: u128)
    ensures
        kept == significant(n as nat),
        kept <= 0x2_0000_0000_0000_0000,
{
    let mut unit: u64 = 1;
    let mut rest: u64 = n;
    proof {
        lemma_spacing(n as nat);
    }
    while rest >= 0x20_0000_0000_0000
        invariant
            spacing(n as nat) == unit * spacing(rest as nat),
            spacing(n as nat) <= 2048,
            0 < unit,
        decreases rest,
    {
        proof {
            lemma_spacing(rest as nat);
            let half = spacing((rest / 2) as nat);
            assert(spacing(rest as nat) == 2 * half);
            lemma_spacing((rest / 2) as nat);
            assert(unit * (2 * half) == (2 * unit) * half) by (nonlinear_arith);
            assert(2 * unit <= (2 * unit) * half) by (nonlinear_arith)
                requires
                    half >= 1,
            ;
        }
        unit = unit * 2;
        rest = rest / 2;
    }
    let whole: u64 = n / unit;
    let over: u64 = n % unit;
    proof {
        let last = spacing(rest as nat);
        assert(unit * last == unit) by (nonlinear_arith)
            requires
                last == 1,
        ;
        vstd::arithmetic::div_mod::lemma_fundamental_div_mod(n as int, unit as int);
        assert(whole * unit <= n) by (nonlinear_arith)
            requires
                n == unit * whole + over,
                over >= 0,
        ;
        assert((whole + 1) * unit == whole * unit + unit) by (nonlinear_arith);
    }
    if 2 * over > unit || (2 * over == unit && whole % 2 == 1) {
        (whole as u128 + 1) * unit as u128
    } else {
        whole as u128 * unit as u128
    }
}

/// A number of units with one digit behind the point.
fn one_place(n: u64, unit: u64) -> (text: String)
    requires
        0 < unit <= 0x10_0000,
    ensures
        text@ == to_one_place(n as nat, unit as nat),
{
    let scaled: u128 = to_significant(n) * 10;
    let unit: u128 = unit as u128;
    let whole: u128 = scaled / unit;
    let over: u128 = scaled % unit;
    proof {
        assert(whole <= scaled) by (nonlinear_arith)
            requires
                whole == scaled / unit,
                unit > 0,
        ;
    }
    let tenths: u128 = if 2 * over > unit || (2 * over == unit && whole % 2 == 1) {
        whole + 1
    } else {
        whole
    };
    let before = decimal(tenths / 10);
    let behind = decimal(tenths % 10);
    between(before.as_str(), ".", behind.as_str())
}

/// A number of bytes, as it is written.
pub open spec fn size(count: u64) -> Seq<char> {
    if count < 1024 {
        digits(count as nat) + " B"@
    } else if count < 1_048_576 {
        to_one_place(count as nat, 1024) + " KiB"@
    } else {
        to_one_place(count as nat, 1_048_576) + " MiB"@
    }
}

/// A number of bytes, for a line a person reads.
pub fn sized(count: u64) -> (text: String)
    ensures
        text@ == size(count),
{
    if count < 1024 {
        let n = decimal(count as u128);
        joined(n.as_str(), " B")
    } else if count < 1_048_576 {
        let n = one_place(count, 1024);
        joined(n.as_str(), " KiB")
    } else {
        let n = one_place(count, 1_048_576);
        joined(n.as_str(), " MiB")
    }
}

/// A number of bytes in KiB, however few they are.
pub fn kib(count: u64) -> (text: String)
    ensures
        text@ == to_one_place(count as nat, 1024) + " KiB"@,
{
    let n = one_place(count, 1024);
    joined(n.as_str(), " KiB")
}

/// Add a number behind a text.
fn with_number(out: &mut String, n: u64)
    ensures
        final(out)@ == old(out)@ + digits(n as nat),
{
    let text = decimal(n as u128);
    out.append(text.as_str());
}

/// Add a size behind a text.
fn with_size(out: &mut String, count: u64)
    ensures
        final(out)@ == old(out)@ + size(count),
{
    let text = sized(count);
    out.append(text.as_str());
}

/// What the queue is doing, in two lines: what it was holding, then what it did about it.
pub open spec fn queue_line(stats: QueueStats) -> Seq<char> {
    digits(stats.packets as nat) + " pkt / "@ + size(stats.bytes as u64) + " in "@ + digits(
        stats.flows as nat,
    ) + " flow(s) · worst wait "@ + digits((stats.worst_wait / 1_000_000) as nat) + " ms of "@
        + digits((stats.interval / 1_000_000) as nat)
        + " ms\n          told to slow down: "@ + digits(stats.marked as nat) + " marked, "@ + digits(
        stats.over_target as nat,
    ) + " dropped · "@ + digits(stats.over_limit as nat) + " over limit · "@ + digits(
        stats.thinned as nat,
    ) + " acks thinned · "@ + digits(stats.stale as nat) + " stale"@
}

/// What the queue is doing, in two lines: what it was holding, then what it did about it.
///
/// Written beside the traffic counters, because it answers the question they cannot: not how much
/// went through, but how long it had to wait to. The second line is indented to the width of the
/// `queue` tag this is printed behind, so the continuation sits under the first half.
pub fn waiting(stats: &QueueStats) -> (line: String)
    ensures
        line@ == queue_line(*stats),
{
    let mut line = decimal(stats.packets as u128);
    line.append(" pkt / ");
    with_size(&mut line, stats.bytes as u64);
    line.append(" in ");
    with_number(&mut line, stats.flows as u64);
    line.append(" flow(s) · worst wait ");
    with_number(&mut line, stats.worst_wait / 1_000_000);
    line.append(" ms of ");
    with_number(&mut line, stats.interval / 1_000_000);
    line.append(" ms\n          told to slow down: ");
    with_number(&mut line, stats.marked);
    line.append(" marked, ");
    with_number(&mut line, stats.over_target);
    line.append(" dropped · ");
    with_number(&mut line, stats.over_limit);
    line.append(" over limit · ");
    with_number(&mut line, stats.thinned);
    line.append(" acks thinned · ");
    with_number(&mut line, stats.stale);
    line.append(" stale");
    line
}

/// The path under an HTTP/3 tunnel, as QUIC reports it.
///
/// Read beside `traffic` when a download loses packets: `lost` is the path losing this side's
/// packets, and datagrams that arrived but were never read are QUIC's receive buffer on this machine
/// overflowing. Losses on the way in that neither shows happened before QUIC saw them.
pub fn path(reading: &PathReading) -> (line: String)
    ensures
        line@ == "rtt "@ + digits((reading.rtt / 1_000_000) as nat) + " ms · cwnd "@ + size(
            reading.cwnd,
        ) + " · "@ + digits(reading.lost as nat) + " of "@ + digits(reading.sent as nat)
            + " pkt lost · "@ + digits(reading.datagrams as nat) + " datagram(s) in, "@ + digits(
            reading.read as nat,
        ) + " read"@,
{
    let mut line = String::from_str("rtt ");
    with_number(&mut line, reading.rtt / 1_000_000);
    line.append(" ms · cwnd ");
    with_size(&mut line, reading.cwnd);
    line.append(" · ");
    with_number(&mut line, reading.lost);
    line.append(" of ");
    with_number(&mut line, reading.sent);
    line.append(" pkt lost · ");
    with_number(&mut line, reading.datagrams);
    line.append(" datagram(s) in, ");
    with_number(&mut line, reading.read);
    line.append(" read");
    line
}

/// What has passed each way, as one line.
pub fn traffic(counters: &Counters) -> (line: String)
    ensures
        ({
            let out = counters.out.count();
            let back = counters.back.count();
            line@ == "out "@ + digits(out.0 as nat) + " pkt / "@ + size(out.1) + " · in "@ + digits(
                back.0 as nat,
            ) + " pkt / "@ + size(back.1)
        }),
{
    let (out_packets, out_bytes) = counters.out.read();
    let (in_packets, in_bytes) = counters.back.read();
    let mut line = String::from_str("out ");
    with_number(&mut line, out_packets);
    line.append(" pkt / ");
    with_size(&mut line, out_bytes);
    line.append(" · in ");
    with_number(&mut line, in_packets);
    line.append(" pkt / ");
    with_size(&mut line, in_bytes);
    line
}

/// The lines about what the engine is doing.
pub open spec fn announced(phase: Phase, ready: bool) -> Seq<Seq<char>> {
    match phase {
        Phase::Connecting { attempt } => if attempt == 1 {
            seq!["tunnel    connecting"@]
        } else {
            seq!["tunnel    connecting, attempt "@ + digits(attempt as nat)]
        },
        Phase::Up { stages } => {
            let up = "tunnel    up  ("@ + stages_shown(stages) + ")"@;
            if ready {
                seq![up]
            } else {
                seq![
                    up,
                    ""@,
                    "ready     Ctrl-C to stop. Nothing outside the routes above is touched."@,
                    "          try:  curl.exe -s https://1.1.1.1/cdn-cgi/trace"@,
                    ""@,
                ]
            }
        },
        Phase::Lost { reason, retry_in, blocked } => {
            let lost = "tunnel    lost — "@ + reason@;
            let again = "tunnel    retrying in "@ + digits((retry_in / 1000) as nat) + " s"@;
            if blocked {
                seq![
                    lost,
                    "tunnel    nothing here is wrong: something on the way refused the handshake"@,
                    again,
                ]
            } else {
                seq![lost, again]
            }
        },
    }
}

/// Say what the engine is doing.
///
/// That it is ready is said once and only once, the first time a tunnel comes up: it is the line
/// whoever started this waits for, and a reconnect is not a new beginning.
pub fn announce(phase: &Phase, ready: &mut bool) -> (lines: Vec<String>)
    ensures
        texts(lines@) == announced(*phase, *old(ready)),
        *final(ready) == (*old(ready) || *phase is Up),
{
    let mut lines: Vec<String> = Vec::new();
    let ghost was = *ready;
    match phase {
        Phase::Connecting { attempt } => {
            if *attempt == 1 {
                lines.push(String::from_str("tunnel    connecting"));
            } else {
                let mut line = String::from_str("tunnel    connecting, attempt ");
                with_number(&mut line, *attempt as u64);
                lines.push(line);
            }
        },
        Phase::Up { stages } => {
            let said = stages.to_string();
            lines.push(between("tunnel    up  (", said.as_str(), ")"));
            if !*ready {
                *ready = true;
                lines.push(String::from_str(""));
                lines.push(
                    String::from_str(
                        "ready     Ctrl-C to stop. Nothing outside the routes above is touched.",
                    ),
                );
                lines.push(
                    String::from_str("          try:  curl.exe -s https://1.1.1.1/cdn-cgi/trace"),
                );
                lines.push(String::from_str(""));
            }
        },
        Phase::Lost { reason, retry_in, blocked } => {
            lines.push(joined("tunnel    lost — ", reason.as_str()));
            if *blocked {
                lines.push(
                    String::from_str(
                        "tunnel    nothing here is wrong: something on the way refused the handshake",
                    ),
                );
            }
            let mut line = String::from_str("tunnel    retrying in ");
            with_number(&mut line, *retry_in / 1000);
            line.append(" s");
            lines.push(line);
        },
    }
    assert(texts(lines@) =~= announced(*phase, was));
    lines
}

/// The lines about a device.
pub open spec fn device_lines(identity: Identity, choice: Choice, presented: &Presented) -> Seq<
    Seq<char>,
> {
    let h3 = if identity.endpoint_v4@.len() == 0 {
        ENDPOINT_H3_V4@
    } else {
        identity.endpoint_v4@
    };
    seq![
        "  device    "@ + identity.device_id@,
        "  inside v4 "@ + identity.assigned_v4@,
        "  inside v6 "@ + identity.assigned_v6@,
        "  endpoint  "@ + h3 + ":443 (h3) · "@ + identity.endpoint_h2_v4@ + ":443 (h2)"@,
        "  transport "@ + choice_name(choice),
        "  hello     "@ + handshake_name(presented.selected()) + " ("@ + match presented.selected() {
            Handshake::NoSni => "no name"@,
            Handshake::Fronted => presented.fronted(),
            _ => CONNECT_SNI@,
        } + ")"@,
    ]
}

/// Describe a device, and how its tunnel will be opened.
///
/// Which ClientHello goes out decides whether the tunnel needs a bypass under it, so a journal that
/// omits it cannot answer what the run was testing.
pub fn describe(identity: &Identity, choice: Choice, presented: &Presented) -> (lines: Vec<String>)
    ensures
        texts(lines@) == device_lines(*identity, choice, presented),
{
    let mut lines: Vec<String> = Vec::new();
    lines.push(joined("  device    ", identity.device_id.as_str()));
    lines.push(joined("  inside v4 ", identity.assigned_v4.as_str()));
    lines.push(joined("  inside v6 ", identity.assigned_v6.as_str()));
    let mut endpoint = joined("  endpoint  ", identity.endpoint_h3_v4());
    endpoint.append(":443 (h3) · ");
    endpoint.append(identity.endpoint_h2_v4.as_str());
    endpoint.append(":443 (h2)");
    lines.push(endpoint);
    lines.push(joined("  transport ", choice.name()));
    let hello = crate::transport::handshake::selected(presented);
    let name = match hello.sni(presented) {
        Some(name) => name,
        None => String::from_str("no name"),
    };
    let mut line = joined("  hello     ", hello.name());
    line.append(" (");
    line.append(name.as_str());
    line.append(")");
    lines.push(line);
    assert(texts(lines@) =~= device_lines(*identity, choice, presented));
    lines
}

/// What is written of a size is never further from it than half of the last digit that is written,
/// as long as fifty-three bits hold it.
pub proof fn law_a_size_is_rounded_to_the_nearest_tenth(n: nat, unit: nat)
    requires
        n < 0x20_0000_0000_0000,
        unit > 0,
    ensures
        2 * (tenths(n, unit) * unit - n * 10) <= unit,
        2 * (n * 10 - tenths(n, unit) * unit) <= unit,
{
    assert(spacing(n) == 1);
    assert(significant(n) == n);
    let scaled = n * 10;
    vstd::arithmetic::div_mod::lemma_fundamental_div_mod(scaled as int, unit as int);
    let whole = scaled / unit;
    assert((whole + 1) * unit == whole * unit + unit) by (nonlinear_arith);
    assert(whole * unit == unit * whole) by (nonlinear_arith);
}

/// A size is shown in bytes below 1024, in KiB below 1048576 and in MiB from there on, with one digit
/// behind the point of the last two.
pub proof fn law_a_size_is_shown_in_its_unit(count: u64)
    ensures
        count < 1024 ==> size(count) == digits(count as nat) + " B"@,
        1024 <= count < 1_048_576 ==> size(count) == digits(tenths(count as nat, 1024) / 10) + "."@
            + digits(tenths(count as nat, 1024) % 10) + " KiB"@,
        count >= 1_048_576 ==> size(count) == digits(tenths(count as nat, 1_048_576) / 10) + "."@
            + digits(tenths(count as nat, 1_048_576) % 10) + " MiB"@,
{
}

} // verus!
