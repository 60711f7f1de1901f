//! What the frames of a stream mean, said over what is written in them.

use vstd::prelude::*;
use crate::transport::http3::{
    control_event, datagram_bytes, datagram_packet_spec, frame_bytes, is_known_spec,
    lemma_frame_header, read_settings, response_status_spec, settings_of, statuses, with_setting,
    ControlEvent, H3Error, PeerSettings,
};
use crate::transport::qpack::{read_section, Line, QpackError};
use crate::transport::varint;
use crate::transport::varint::encoded;

verus! {

/// `:status`, as bytes.
pub open spec fn colon_status() -> Seq<u8> {
    seq![0x3au8, 0x73u8, 0x74u8, 0x61u8, 0x74u8, 0x75u8, 0x73u8]
}

/// Only the fields named `:status` count toward the statuses of a response.
proof fn lemma_statuses(lines: Seq<Line>, at: int)
    requires
        0 <= at < lines.len(),
        lines[at].0 == colon_status(),
        forall|i: int| 0 <= i < lines.len() && i != at ==> (#[trigger] lines[i]).0 != colon_status(),
    ensures
        statuses(lines) == seq![lines[at].1],
    decreases lines.len(),
{
    let rest = lines.drop_last();
    if at == lines.len() - 1 {
        assert forall|i: int| 0 <= i < rest.len() implies (#[trigger] rest[i]).0
            != colon_status() by {
            assert(rest[i] == lines[i]);
        }
        lemma_no_statuses(rest);
        assert(statuses(lines) =~= seq![lines[at].1]);
    } else {
        assert forall|i: int| 0 <= i < rest.len() && i != at implies (#[trigger] rest[i]).0
            != colon_status() by {
            assert(rest[i] == lines[i]);
        }
        lemma_statuses(rest, at);
        assert(lines[lines.len() - 1].0 != colon_status());
    }
}

proof fn lemma_no_statuses(lines: Seq<Line>)
    requires
        forall|i: int| 0 <= i < lines.len() ==> (#[trigger] lines[i]).0 != colon_status(),
    ensures
        statuses(lines).len() == 0,
    decreases lines.len(),
{
    if lines.len() > 0 {
        let rest = lines.drop_last();
        assert forall|i: int| 0 <= i < rest.len() implies (#[trigger] rest[i]).0
            != colon_status() by {
            assert(rest[i] == lines[i]);
        }
        lemma_no_statuses(rest);
        assert(lines[lines.len() - 1].0 != colon_status());
    }
}

proof fn lemma_two_statuses(lines: Seq<Line>, first: int, second: int)
    requires
        0 <= first < second < lines.len(),
        lines[first].0 == colon_status(),
        lines[second].0 == colon_status(),
    ensures
        statuses(lines).len() >= 2,
    decreases lines.len(),
{
    let rest = lines.drop_last();
    if second == lines.len() - 1 {
        lemma_some_status(rest, first);
    } else {
        lemma_two_statuses(rest, first, second);
    }
}

proof fn lemma_some_status(lines: Seq<Line>, at: int)
    requires
        0 <= at < lines.len(),
        lines[at].0 == colon_status(),
    ensures
        statuses(lines).len() >= 1,
    decreases lines.len(),
{
    if at < lines.len() - 1 {
        lemma_some_status(lines.drop_last(), at);
    }
}

/// A response with one `:status` of three digits is the number that they spell, whatever other fields
/// stand beside it: 100 to 199 only say that more is coming, and every number from 200 to 999 is the
/// response.
pub proof fn law_a_response_is_its_status(
    payload: Seq<u8>,
    lines: Seq<Line>,
    at: int,
    hundreds: int,
    tens: int,
    ones: int,
)
    requires
        read_section(payload) == Ok::<Seq<Line>, QpackError>(lines),
        0 <= at < lines.len(),
        lines[at].0 == colon_status(),
        forall|i: int| 0 <= i < lines.len() && i != at ==> (#[trigger] lines[i]).0 != colon_status(),
        1 <= hundreds <= 9,
        0 <= tens <= 9,
        0 <= ones <= 9,
        lines[at].1 == seq![(0x30 + hundreds) as u8, (0x30 + tens) as u8, (0x30 + ones) as u8],
    ensures
        hundreds == 1 ==> response_status_spec(0x01, payload) == Ok::<Option<u16>, H3Error>(None),
        hundreds >= 2 ==> response_status_spec(0x01, payload) == Ok::<Option<u16>, H3Error>(
            Some((hundreds * 100 + tens * 10 + ones) as u16),
        ),
{
    lemma_statuses(lines, at);
}

/// A response without exactly one `:status`, or with one that is not three digits from 100 on, is
/// refused, and so is anything on the request stream that is not HEADERS.
pub proof fn law_a_response_has_one_status(kind: u64, payload: Seq<u8>, lines: Seq<Line>)
    requires
        read_section(payload) == Ok::<Seq<Line>, QpackError>(lines),
    ensures
        kind != 0x01 ==> response_status_spec(kind, payload) is Err,
        (forall|i: int| 0 <= i < lines.len() ==> (#[trigger] lines[i]).0 != colon_status())
            ==> response_status_spec(kind, payload) is Err,
        forall|i: int, j: int|
            0 <= i < j < lines.len() && (#[trigger] lines[i]).0 == colon_status() && (
            #[trigger] lines[j]).0 == colon_status() ==> response_status_spec(kind, payload) is Err,
        forall|i: int|
            0 <= i < lines.len() && (#[trigger] lines[i]).0 == colon_status() && !(lines[i].1.len()
                == 3 && 0x31 <= lines[i].1[0] <= 0x39 && 0x30 <= lines[i].1[1] <= 0x39 && 0x30
                <= lines[i].1[2] <= 0x39) ==> response_status_spec(kind, payload) is Err,
{
    if forall|i: int| 0 <= i < lines.len() ==> (#[trigger] lines[i]).0 != colon_status() {
        lemma_no_statuses(lines);
    }
    assert forall|i: int, j: int|
        0 <= i < j < lines.len() && (#[trigger] lines[i]).0 == colon_status() && (
        #[trigger] lines[j]).0 == colon_status() implies response_status_spec(
        kind,
        payload,
    ) is Err by {
        lemma_two_statuses(lines, i, j);
    }
    assert forall|i: int|
        0 <= i < lines.len() && (#[trigger] lines[i]).0 == colon_status() && !(lines[i].1.len() == 3
            && 0x31 <= lines[i].1[0] <= 0x39 && 0x30 <= lines[i].1[1] <= 0x39 && 0x30
            <= lines[i].1[2] <= 0x39) implies response_status_spec(kind, payload) is Err by {
        if forall|j: int| 0 <= j < lines.len() && j != i ==> (#[trigger] lines[j]).0 != colon_status() {
            lemma_statuses(lines, i);
        } else {
            let j = choose|j: int|
                0 <= j < lines.len() && j != i && (#[trigger] lines[j]).0 == colon_status();
            if i < j {
                lemma_two_statuses(lines, i, j);
            } else {
                lemma_two_statuses(lines, j, i);
            }
        }
    }
}

/// Settings as a payload writes them, each its identifier and then its value.
pub open spec fn settings_written(pairs: Seq<(u64, u64)>) -> Seq<u8>
    decreases pairs.len(),
{
    if pairs.len() == 0 {
        Seq::empty()
    } else {
        encoded(pairs[0].0) + encoded(pairs[0].1) + settings_written(pairs.drop_first())
    }
}

/// Whether settings may be sent: numbers a payload can write, no identifier twice, and none that was
/// HTTP/2's.
pub open spec fn may_be_sent(pairs: Seq<(u64, u64)>) -> bool {
    &&& forall|i: int|
        0 <= i < pairs.len() ==> (#[trigger] pairs[i]).0 <= 0x3fff_ffff_ffff_ffff && pairs[i].1
            <= 0x3fff_ffff_ffff_ffff && !(0x02 <= pairs[i].0 <= 0x05)
    &&& forall|i: int, j: int|
        0 <= i < j < pairs.len() ==> (#[trigger] pairs[i]).0 != (#[trigger] pairs[j]).0
}

/// Settings that may be sent are read for what they say, in whatever order and whatever others stand
/// among them: datagrams are offered exactly where 0x33 is 1, and extended CONNECT exactly where 0x08
/// is 1.
pub proof fn law_settings_say_what_is_written(pairs: Seq<(u64, u64)>)
    requires
        may_be_sent(pairs),
    ensures
        settings_of(settings_written(pairs)) matches Ok(settings) && (settings.h3_datagram
            <==> pairs.contains((0x33u64, 1u64))) && (settings.extended_connect <==> pairs.contains(
            (0x08u64, 1u64),
        )),
{
    let none = PeerSettings { h3_datagram: false, extended_connect: false };
    lemma_settings(pairs, Seq::empty(), none);
}

proof fn lemma_settings(pairs: Seq<(u64, u64)>, seen: Seq<u64>, so_far: PeerSettings)
    requires
        may_be_sent(pairs),
        forall|i: int| 0 <= i < pairs.len() ==> !seen.contains((#[trigger] pairs[i]).0),
        !seen.contains(0x33) ==> !so_far.h3_datagram,
        !seen.contains(0x08) ==> !so_far.extended_connect,
    ensures
        read_settings(settings_written(pairs), seen, so_far) matches Ok(settings) && (
        settings.h3_datagram <==> so_far.h3_datagram || pairs.contains((0x33u64, 1u64))) && (
        settings.extended_connect <==> so_far.extended_connect || pairs.contains(
            (0x08u64, 1u64),
        )),
    decreases pairs.len(),
{
    if pairs.len() > 0 {
        let (id, value) = pairs[0];
        let rest = pairs.drop_first();
        let behind = settings_written(rest);
        let payload = settings_written(pairs);
        lemma_frame_header(id, value, behind);
        let used = (encoded(id).len() + encoded(value).len()) as int;
        assert(payload.skip(used) =~= behind);
        let now = PeerSettings {
            h3_datagram: if id == 0x33 {
                value == 1
            } else {
                so_far.h3_datagram
            },
            extended_connect: if id == 0x08 {
                value == 1
            } else {
                so_far.extended_connect
            },
        };
        assert forall|i: int| 0 <= i < rest.len() implies !seen.push(id).contains(
            (#[trigger] rest[i]).0,
        ) by {
            assert(rest[i] == pairs[i + 1]);
            assert(pairs[0].0 != pairs[i + 1].0);
            if seen.push(id).contains(rest[i].0) {
                let k = choose|k: int| 0 <= k < seen.push(id).len() && seen.push(id)[k] == rest[i].0;
                if k < seen.len() {
                    assert(seen[k] == rest[i].0);
                }
            }
        }
        assert(may_be_sent(rest)) by {
            assert forall|i: int, j: int| 0 <= i < j < rest.len() implies (#[trigger] rest[i]).0
                != (#[trigger] rest[j]).0 by {
                assert(rest[i] == pairs[i + 1] && rest[j] == pairs[j + 1]);
            }
            assert forall|i: int| 0 <= i < rest.len() implies (#[trigger] rest[i]).0
                <= 0x3fff_ffff_ffff_ffff && rest[i].1 <= 0x3fff_ffff_ffff_ffff && !(0x02
                <= rest[i].0 <= 0x05) by {
                assert(rest[i] == pairs[i + 1]);
            }
        }
        assert(seen.push(id)[seen.len() as int] == id);
        assert forall|other: u64| seen.contains(other) implies seen.push(id).contains(other) by {
            let k = choose|k: int| 0 <= k < seen.len() && seen[k] == other;
            assert(seen.push(id)[k] == other);
        }
        lemma_settings(rest, seen.push(id), now);
        assert(!seen.contains(pairs[0].0));
        assert(pairs =~= seq![(id, value)] + rest);
        assert forall|pair: (u64, u64)| pairs.contains(pair) <==> pair == (id, value)
            || rest.contains(pair) by {
            if pairs.contains(pair) {
                let k = choose|k: int| 0 <= k < pairs.len() && pairs[k] == pair;
                if k > 0 {
                    assert(rest[k - 1] == pair);
                }
            }
            if rest.contains(pair) {
                let k = choose|k: int| 0 <= k < rest.len() && rest[k] == pair;
                assert(pairs[k + 1] == pair);
            }
            assert(pairs[0] == (id, value));
        }
    }
}

/// Settings that repeat an identifier, or carry one that was HTTP/2's, are refused, wherever they do.
pub proof fn law_settings_that_may_not_be_sent_are_refused(
    pairs: Seq<(u64, u64)>,
    bad: (u64, u64),
    behind: Seq<u8>,
)
    requires
        may_be_sent(pairs),
        bad.0 <= 0x3fff_ffff_ffff_ffff,
        bad.1 <= 0x3fff_ffff_ffff_ffff,
        0x02 <= bad.0 <= 0x05 || exists|i: int|
            0 <= i < pairs.len() && (#[trigger] pairs[i]).0 == bad.0,
    ensures
        settings_of(settings_written(pairs) + encoded(bad.0) + encoded(bad.1) + behind) is Err,
{
    let none = PeerSettings { h3_datagram: false, extended_connect: false };
    lemma_bad_setting(pairs, Seq::empty(), none, bad, behind);
}

proof fn lemma_bad_setting(
    pairs: Seq<(u64, u64)>,
    seen: Seq<u64>,
    so_far: PeerSettings,
    bad: (u64, u64),
    behind: Seq<u8>,
)
    requires
        may_be_sent(pairs),
        bad.0 <= 0x3fff_ffff_ffff_ffff,
        bad.1 <= 0x3fff_ffff_ffff_ffff,
        0x02 <= bad.0 <= 0x05 || seen.contains(bad.0) || exists|i: int|
            0 <= i < pairs.len() && (#[trigger] pairs[i]).0 == bad.0,
    ensures
        read_settings(
            settings_written(pairs) + encoded(bad.0) + encoded(bad.1) + behind,
            seen,
            so_far,
        ) is Err,
    decreases pairs.len(),
{
    let payload = settings_written(pairs) + encoded(bad.0) + encoded(bad.1) + behind;
    if pairs.len() == 0 {
        lemma_frame_header(bad.0, bad.1, behind);
        assert(payload =~= encoded(bad.0) + encoded(bad.1) + behind);
    } else {
        let (id, value) = pairs[0];
        let rest = pairs.drop_first();
        let left = settings_written(rest) + encoded(bad.0) + encoded(bad.1) + behind;
        lemma_frame_header(id, value, left);
        assert(payload =~= encoded(id) + encoded(value) + left);
        let used = (encoded(id).len() + encoded(value).len()) as int;
        assert(payload.skip(used) =~= left);
        assert(may_be_sent(rest)) by {
            assert forall|i: int, j: int| 0 <= i < j < rest.len() implies (#[trigger] rest[i]).0
                != (#[trigger] rest[j]).0 by {
                assert(rest[i] == pairs[i + 1] && rest[j] == pairs[j + 1]);
            }
            assert forall|i: int| 0 <= i < rest.len() implies (#[trigger] rest[i]).0
                <= 0x3fff_ffff_ffff_ffff && rest[i].1 <= 0x3fff_ffff_ffff_ffff && !(0x02
                <= rest[i].0 <= 0x05) by {
                assert(rest[i] == pairs[i + 1]);
            }
        }
        if !(0x02 <= bad.0 <= 0x05) {
            if seen.contains(bad.0) {
                let k = choose|k: int| 0 <= k < seen.len() && seen[k] == bad.0;
                assert(seen.push(id)[k] == bad.0);
            } else {
                let i = choose|i: int| 0 <= i < pairs.len() && (#[trigger] pairs[i]).0 == bad.0;
                if i == 0 {
                    assert(seen.push(id)[seen.len() as int] == bad.0);
                } else {
                    assert(rest[i - 1].0 == bad.0);
                }
            }
        }
        let now = with_setting(so_far, id, value);
        lemma_bad_setting(rest, seen.push(id), now, bad, behind);
    }
}

/// The endpoint's control stream: SETTINGS comes first and once, a goodbye says which request is the
/// first not served, what is about push is passed over, and every frame of a request stream, or one
/// that was HTTP/2's, breaks a rule.
pub proof fn law_the_rules_of_the_control_stream(settled: bool, kind: u64, payload: Seq<u8>, id: u64)
    requires
        id <= 0x3fff_ffff_ffff_ffff,
    ensures
        !settled && kind != 0x04 ==> control_event(settled, kind, payload) == Err::<
            Option<ControlEvent>,
            H3Error,
        >(H3Error::MissingSettings),
        !settled ==> match settings_of(payload) {
            Ok(settings) => control_event(settled, 0x04, payload) == Ok::<_, H3Error>(
                Some(ControlEvent::Settings(settings)),
            ),
            Err(_) => control_event(settled, 0x04, payload) is Err,
        },
        settled && kind != 0x03 && kind != 0x07 && kind != 0x0d ==> control_event(
            settled,
            kind,
            payload,
        ) is Err,
        settled && (kind == 0x03 || kind == 0x0d) ==> control_event(settled, kind, payload) == Ok::<
            Option<ControlEvent>,
            H3Error,
        >(None),
        settled ==> control_event(settled, 0x07, encoded(id)) == Ok::<_, H3Error>(
            Some(ControlEvent::GoAway(id)),
        ),
        settled && payload.len() > 0 ==> control_event(settled, 0x07, encoded(id) + payload) is Err,
{
    varint::law_varint_round_trip(id, Seq::empty());
    assert(encoded(id) + Seq::<u8>::empty() =~= encoded(id));
    varint::law_varint_round_trip(id, payload);
}

/// The frame types that mean something: those of HTTP/3, and those it reserves because HTTP/2 had
/// them. Every other is passed over.
pub proof fn law_the_known_frame_types(kind: u64)
    ensures
        is_known_spec(kind) <==> kind <= 0x09 || kind == 0x0d,
{
}

/// A frame is its type, the length of what it carries and that: a byte each for the first two where
/// they are below 64. A datagram is the number of its request's stream divided by four, a zero and the
/// packet.
pub proof fn law_what_a_short_frame_and_a_datagram_are(
    kind: u64,
    payload: Seq<u8>,
    stream_id: u64,
    packet: Seq<u8>,
)
    ensures
        kind < 64 && payload.len() < 64 ==> frame_bytes(kind, payload) == seq![
            kind as u8,
            payload.len() as u8,
        ] + payload,
        stream_id < 256 ==> datagram_bytes(stream_id, packet) == seq![
            (stream_id / 4) as u8,
            0u8,
        ] + packet,
{
    if kind < 64 && payload.len() < 64 {
        assert(frame_bytes(kind, payload) =~= seq![kind as u8, payload.len() as u8] + payload);
    }
    if stream_id < 256 {
        assert(datagram_bytes(stream_id, packet) =~= seq![(stream_id / 4) as u8, 0u8] + packet);
    }
}

/// Whose datagram it is is said by its first number, and a context other than 0 is nobody's packet.
pub proof fn law_a_datagram_says_whose_it_is(quarter: u64, context: u64, packet: Seq<u8>, asked: u64)
    requires
        quarter <= 0x3fff_ffff_ffff_ffff,
        context <= 0x3fff_ffff_ffff_ffff,
    ensures
        datagram_packet_spec(encoded(quarter) + encoded(context) + packet, asked) == if asked / 4
            == quarter && context == 0 {
            Some(packet)
        } else {
            None
        },
        datagram_packet_spec(encoded(quarter), asked) is None,
{
    let bytes = encoded(quarter) + encoded(context) + packet;
    varint::law_varint_round_trip(quarter, encoded(context) + packet);
    varint::law_varint_round_trip(context, packet);
    varint::law_varint_round_trip(quarter, Seq::empty());
    assert(encoded(quarter) + Seq::<u8>::empty() =~= encoded(quarter));
    assert(encoded(quarter).skip(encoded(quarter).len() as int) =~= Seq::<u8>::empty());
    assert(bytes =~= encoded(quarter) + (encoded(context) + packet));
    let rest = bytes.skip(encoded(quarter).len() as int);
    assert(rest =~= encoded(context) + packet);
    assert(rest.skip(encoded(context).len() as int) =~= packet);
}

} // verus!
