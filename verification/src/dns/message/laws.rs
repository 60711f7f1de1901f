//! What a message says, over the bytes it is written in.

use vstd::prelude::*;
use crate::address::{number, IpAddr};
use crate::dns::message::{
    answers, dotted, label_bytes, label_text, labels_at, name_at, past_questions, question,
    record_at, records_from, Answer, MessageError, Question, MAX_JUMPS, MAX_NAME,
};

verus! {

/// Labels one after another, each behind its length, and nothing behind the last.
pub open spec fn run_of(labels: Seq<Seq<u8>>) -> Seq<u8>
    decreases labels.len(),
{
    if labels.len() == 0 {
        Seq::empty()
    } else {
        seq![labels[0].len() as u8] + labels[0] + run_of(labels.drop_first())
    }
}

/// All the labels of a name that is written in pieces.
pub open spec fn joined_pieces(pieces: Seq<Seq<Seq<u8>>>) -> Seq<Seq<u8>>
    decreases pieces.len(),
{
    if pieces.len() == 0 {
        Seq::empty()
    } else {
        pieces[0] + joined_pieces(pieces.drop_first())
    }
}

/// Whether labels are written at a place: the run of them, each of 1 to 63 bytes.
pub open spec fn stands_at(message: Seq<u8>, at: int, labels: Seq<Seq<u8>>) -> bool {
    &&& 0 <= at <= at + run_of(labels).len() <= message.len()
    &&& message.subrange(at, at + run_of(labels).len()) == run_of(labels)
    &&& forall|i: int| 0 <= i < labels.len() ==> 1 <= (#[trigger] labels[i]).len() <= 63
}

/// Whether a name is written in pieces: labels at each place, behind each but the last a pointer that
/// leads back to the next place, and behind the last a zero.
pub open spec fn in_pieces(message: Seq<u8>, places: Seq<int>, pieces: Seq<Seq<Seq<u8>>>) -> bool {
    &&& places.len() == pieces.len()
    &&& 1 <= pieces.len() <= 17
    &&& forall|i: int|
        0 <= i < pieces.len() ==> #[trigger] stands_at(message, places[i], pieces[i])
    &&& forall|i: int|
        0 <= i < pieces.len() - 1 ==> {
            let pointer = places[i] + run_of(#[trigger] pieces[i]).len();
            &&& pointer + 1 < message.len()
            &&& message[pointer] >= 0xc0
            &&& (message[pointer] - 0xc0) * 256 + message[pointer + 1] == places[i + 1]
            &&& places[i + 1] < pointer
        }
    &&& ({
        let end = places.last() + run_of(pieces.last()).len();
        end < message.len() && message[end] == 0
    })
    &&& run_of(joined_pieces(pieces)).len() <= 255
}

/// Where a name in pieces ends for whoever walks the message: behind its zero, or behind its first
/// pointer.
pub open spec fn end_of_pieces(places: Seq<int>, pieces: Seq<Seq<Seq<u8>>>) -> int {
    places[0] + run_of(pieces[0]).len() + if pieces.len() == 1 {
        1int
    } else {
        2int
    }
}

proof fn lemma_run_bytes(labels: Seq<Seq<u8>>)
    ensures
        run_of(labels).len() == label_bytes(labels),
    decreases labels.len(),
{
    if labels.len() > 0 {
        lemma_run_bytes(labels.drop_first());
    }
}

proof fn lemma_run_add(a: Seq<Seq<u8>>, b: Seq<Seq<u8>>)
    ensures
        run_of(a + b) == run_of(a) + run_of(b),
    decreases a.len(),
{
    if a.len() == 0 {
        assert(a + b =~= b);
        assert(run_of(a) + run_of(b) =~= run_of(b));
    } else {
        assert((a + b).drop_first() =~= a.drop_first() + b);
        lemma_run_add(a.drop_first(), b);
        assert(run_of(a + b) =~= run_of(a) + run_of(b));
    }
}

/// Labels written in front of a place are read in front of what is read from there.
proof fn lemma_front(message: Seq<u8>, at: int, jumps: int, seen: int, labels: Seq<Seq<u8>>)
    requires
        stands_at(message, at, labels),
        at + run_of(labels).len() < message.len(),
        0 <= seen,
        seen + run_of(labels).len() <= 255,
    ensures
        labels_at(message, at, jumps, seen) == match labels_at(
            message,
            at + run_of(labels).len(),
            jumps,
            seen + run_of(labels).len(),
        ) {
            Ok((rest, end)) => Ok((labels + rest, end)),
            Err(error) => Err(error),
        },
    decreases labels.len(),
{
    let here = message.subrange(at, at + run_of(labels).len());
    let next = at + run_of(labels).len();
    if labels.len() == 0 {
        if let Ok((rest, _)) = labels_at(message, next, jumps, seen) {
            assert(labels + rest =~= rest);
        }
    } else {
        let label = labels[0];
        let rest = labels.drop_first();
        let length = label.len() as int;
        assert(run_of(labels) == seq![length as u8] + label + run_of(rest));
        assert(here[0] == message[at]);
        assert(run_of(labels)[0] == length as u8);
        assert(message.subrange(at + 1, at + 1 + length) =~= label) by {
            assert forall|i: int| 0 <= i < length implies message[at + 1 + i] == label[i] by {
                assert(here[1 + i] == message[at + 1 + i]);
                assert(run_of(labels)[1 + i] == label[i]);
            }
        }
        let from = at + 1 + length;
        assert(stands_at(message, from, rest)) by {
            assert(message.subrange(from, from + run_of(rest).len()) =~= run_of(rest)) by {
                assert forall|i: int| 0 <= i < run_of(rest).len() implies message[from + i]
                    == run_of(rest)[i] by {
                    assert(here[1 + length + i] == message[from + i]);
                    assert(run_of(labels)[1 + length + i] == run_of(rest)[i]);
                }
            }
            assert forall|i: int| 0 <= i < rest.len() implies 1 <= (#[trigger] rest[i]).len()
                <= 63 by {
                assert(rest[i] == labels[i + 1]);
            }
        }
        lemma_front(message, from, jumps, seen + length + 1, rest);
        if let Ok((more, _)) = labels_at(message, next, jumps, seen + run_of(labels).len()) {
            assert(seq![label] + (rest + more) =~= labels + more);
        }
    }
}

/// A name is read wherever it is written, whole or in pieces: labels, and a pointer that leads
/// backwards to where more of them are written, at most sixteen times over, up to a zero. What is read
/// is all the labels in front of one another, and it ends behind the zero or the first pointer.
pub proof fn law_a_name_in_pieces_is_read(
    message: Seq<u8>,
    places: Seq<int>,
    pieces: Seq<Seq<Seq<u8>>>,
)
    requires
        in_pieces(message, places, pieces),
    ensures
        name_at(message, places[0]) == Ok::<_, MessageError>(
            (dotted(joined_pieces(pieces)), end_of_pieces(places, pieces)),
        ),
{
    lemma_pieces(message, places, pieces, 0, 0);
}

proof fn lemma_pieces(
    message: Seq<u8>,
    places: Seq<int>,
    pieces: Seq<Seq<Seq<u8>>>,
    jumps: int,
    seen: int,
)
    requires
        in_pieces(message, places, pieces),
        0 <= jumps,
        jumps + pieces.len() <= 17,
        0 <= seen,
        seen + run_of(joined_pieces(pieces)).len() <= 255,
    ensures
        labels_at(message, places[0], jumps, seen) == Ok::<_, MessageError>(
            (joined_pieces(pieces), end_of_pieces(places, pieces)),
        ),
    decreases pieces.len(),
{
    let first = pieces[0];
    let behind = joined_pieces(pieces.drop_first());
    lemma_run_add(first, behind);
    let pointer = places[0] + run_of(first).len();
    assert(stands_at(message, places[0], pieces[0]));
    lemma_front(message, places[0], jumps, seen, first);
    if pieces.len() == 1 {
        assert(pieces.drop_first() =~= Seq::empty());
        assert(behind =~= Seq::empty());
        assert(first + Seq::<Seq<u8>>::empty() =~= joined_pieces(pieces));
    } else {
        let rest = pieces.drop_first();
        let others = places.drop_first();
        assert(run_of(pieces[0]).len() >= 0);
        assert(in_pieces(message, others, rest)) by {
            assert forall|i: int| 0 <= i < rest.len() implies #[trigger] stands_at(
                message,
                others[i],
                rest[i],
            ) by {
                assert(stands_at(message, places[i + 1], pieces[i + 1]));
            }
            assert forall|i: int| 0 <= i < rest.len() - 1 implies {
                let pointer = others[i] + run_of(#[trigger] rest[i]).len();
                &&& pointer + 1 < message.len()
                &&& message[pointer] >= 0xc0
                &&& (message[pointer] - 0xc0) * 256 + message[pointer + 1] == others[i + 1]
                &&& others[i + 1] < pointer
            } by {
                assert(run_of(pieces[i + 1]).len() >= 0);
            }
        }
        lemma_pieces(message, others, rest, jumps + 1, seen + run_of(first).len());
        assert(stands_at(message, places[1], pieces[1]));
    }
}

/// What is read as a name is written as one: nothing comes of a message but labels that stand in it,
/// reached by pointers that lead backwards.
pub proof fn law_what_is_read_as_a_name_is_written(message: Seq<u8>, at: int)
    ensures
        name_at(message, at) matches Ok((name, end)) ==> exists|
            places: Seq<int>,
            pieces: Seq<Seq<Seq<u8>>>,
        |
            #[trigger] in_pieces(message, places, pieces) && places[0] == at && name == dotted(
                joined_pieces(pieces),
            ) && end == end_of_pieces(places, pieces),
{
    if let Ok((labels, end)) = labels_at(message, at, 0, 0) {
        let (places, pieces) = lemma_found(message, at, 0, 0);
        assert(in_pieces(message, places, pieces));
    }
}

proof fn lemma_found(message: Seq<u8>, at: int, jumps: int, seen: int) -> (found: (
    Seq<int>,
    Seq<Seq<Seq<u8>>>,
))
    requires
        0 <= jumps <= MAX_JUMPS,
        0 <= seen,
        labels_at(message, at, jumps, seen) is Ok,
    ensures
        in_pieces(message, found.0, found.1),
        found.0[0] == at,
        labels_at(message, at, jumps, seen) == Ok::<_, MessageError>(
            (joined_pieces(found.1), end_of_pieces(found.0, found.1)),
        ),
        found.1.len() + jumps <= 17,
        run_of(joined_pieces(found.1)).len() + seen <= 255 || run_of(joined_pieces(found.1)).len()
            == 0,
    decreases MAX_JUMPS - jumps, MAX_NAME - seen,
{
    if message[at] == 0 {
        let none: Seq<Seq<u8>> = Seq::empty();
        let places = seq![at];
        let pieces = seq![none];
        assert(pieces.drop_first() =~= Seq::empty());
        reveal_with_fuel(joined_pieces, 2);
        assert(joined_pieces(pieces) =~= none);
        assert(message.subrange(at, at) =~= run_of(none));
        assert(stands_at(message, at, none));
        assert(run_of(joined_pieces(pieces)).len() == 0);
        assert(in_pieces(message, places, pieces));
        (places, pieces)
    } else if message[at] >= 0xc0 {
        let target = (message[at] - 0xc0) * 256 + message[at + 1];
        let (others, rest) = lemma_found(message, target, jumps + 1, seen);
        let none: Seq<Seq<u8>> = Seq::empty();
        let places = seq![at] + others;
        let pieces = seq![none] + rest;
        assert(pieces.drop_first() =~= rest);
        assert(none + joined_pieces(rest) =~= joined_pieces(rest));
        assert(message.subrange(at, at) =~= run_of(none));
        assert(in_pieces(message, places, pieces)) by {
            assert forall|i: int| 0 <= i < pieces.len() implies #[trigger] stands_at(
                message,
                places[i],
                pieces[i],
            ) by {
                if i > 0 {
                    assert(stands_at(message, others[i - 1], rest[i - 1]));
                }
            }
            assert forall|i: int| 0 <= i < pieces.len() - 1 implies {
                let pointer = places[i] + run_of(#[trigger] pieces[i]).len();
                &&& pointer + 1 < message.len()
                &&& message[pointer] >= 0xc0
                &&& (message[pointer] - 0xc0) * 256 + message[pointer + 1] == places[i + 1]
                &&& places[i + 1] < pointer
            } by {
                if i > 0 {
                    assert(run_of(rest[i - 1]).len() >= 0);
                    assert(pieces[i] == rest[i - 1]);
                }
            }
            assert(places.last() == others.last());
            assert(pieces.last() == rest.last());
        }
        (places, pieces)
    } else {
        let length = message[at] as int;
        let label = message.subrange(at + 1, at + 1 + length);
        let (others, rest) = lemma_found(message, at + 1 + length, jumps, seen + length + 1);
        let first = seq![label] + rest[0];
        let places = seq![at] + others.drop_first();
        let pieces = seq![first] + rest.drop_first();
        assert(pieces.drop_first() =~= rest.drop_first());
        assert(joined_pieces(pieces) =~= seq![label] + joined_pieces(rest));
        lemma_run_add(seq![label], rest[0]);
        lemma_run_add(seq![label], joined_pieces(rest));
        assert(seq![label].drop_first() =~= Seq::empty());
        reveal_with_fuel(run_of, 2);
        assert(run_of(seq![label]) =~= seq![length as u8] + label);
        assert(stands_at(message, others[0], rest[0]));
        assert(stands_at(message, at, first)) by {
            let behind = message.subrange(others[0], others[0] + run_of(rest[0]).len());
            assert(message.subrange(at, at + run_of(first).len()) =~= seq![length as u8] + label
                + behind);
        }
        assert(in_pieces(message, places, pieces)) by {
            assert forall|i: int| 0 <= i < pieces.len() implies #[trigger] stands_at(
                message,
                places[i],
                pieces[i],
            ) by {
                if i > 0 {
                    assert(stands_at(message, others[i], rest[i]));
                }
            }
            assert forall|i: int| 0 <= i < pieces.len() - 1 implies {
                let pointer = places[i] + run_of(#[trigger] pieces[i]).len();
                &&& pointer + 1 < message.len()
                &&& message[pointer] >= 0xc0
                &&& (message[pointer] - 0xc0) * 256 + message[pointer + 1] == places[i + 1]
                &&& places[i + 1] < pointer
            } by {
                assert(run_of(rest[i]).len() >= 0);
                if i > 0 {
                    assert(pieces[i] == rest[i]);
                }
            }
            if pieces.len() > 1 {
                assert(places.last() == others.last());
                assert(pieces.last() == rest.last());
            }
        }
        (places, pieces)
    }
}

/// A label is compared byte by byte, `A` to `Z` as `a` to `z` and every other byte as it is; a name is
/// its labels with a dot between them.
pub proof fn law_a_name_is_its_labels(front: Seq<Seq<u8>>, back: Seq<Seq<u8>>, label: Seq<u8>, i: int)
    requires
        0 <= i < label.len(),
    ensures
        dotted(Seq::empty()) == Seq::<char>::empty(),
        dotted(seq![label]).len() == label.len(),
        0x41 <= label[i] <= 0x5a ==> dotted(seq![label])[i] as int == label[i] + 0x20,
        !(0x41 <= label[i] <= 0x5a) ==> dotted(seq![label])[i] as int == label[i],
        front.len() > 0 && back.len() > 0 ==> dotted(front + back) == dotted(front) + seq!['.']
            + dotted(back),
{
    assert(dotted(seq![label]) == label_text(label));
    if front.len() > 0 && back.len() > 0 {
        lemma_dotted_add(front, back);
    }
}

proof fn lemma_dotted_add(front: Seq<Seq<u8>>, back: Seq<Seq<u8>>)
    requires
        front.len() > 0,
        back.len() > 0,
    ensures
        dotted(front + back) == dotted(front) + seq!['.'] + dotted(back),
    decreases back.len(),
{
    let all = front + back;
    assert(all.drop_last() =~= front + back.drop_last());
    assert(all.last() == back.last());
    if back.len() == 1 {
        assert(front + back.drop_last() =~= front);
    } else {
        lemma_dotted_add(front, back.drop_last());
        assert(dotted(all) =~= dotted(front) + seq!['.'] + dotted(back));
    }
}

/// The number two bytes of a message spell, the first the more significant.
pub open spec fn pair(message: Seq<u8>, at: int) -> int {
    message[at] * 256 + message[at + 1]
}

/// A record is read by what stands behind its name: type, class, time to live and length, then as
/// many bytes of data as that says. One of class 1 that is four bytes of type 1 or sixteen of type 28
/// carries the address they spell; every other is stepped over. One that the message does not hold
/// whole is an error.
pub proof fn law_a_record_is_what_stands_behind_its_name(
    message: Seq<u8>,
    at: int,
    name: Seq<char>,
    behind: int,
)
    requires
        name_at(message, at) == Ok::<_, MessageError>((name, behind)),
        0 <= behind <= message.len(),
    ensures
        behind + 10 > message.len() || behind + 10 + pair(message, behind + 8) > message.len()
            ==> record_at(message, at) is Err,
        behind + 10 <= message.len() && behind + 10 + pair(message, behind + 8) <= message.len()
            ==> ({
            let length = pair(message, behind + 8);
            let end = behind + 10 + length;
            let rtype = pair(message, behind);
            let rclass = pair(message, behind + 2);
            let ttl = pair(message, behind + 4) * 65536 + pair(message, behind + 6);
            let data = behind + 10;
            if rclass == 1 && rtype == 1 && length == 4 {
                record_at(message, at) == Ok::<_, MessageError>(
                    (
                        Some(
                            Answer {
                                name,
                                address: IpAddr::V4(
                                    (pair(message, data) * 65536 + pair(message, data + 2)) as u32,
                                ),
                                ttl: ttl as u32,
                            },
                        ),
                        end,
                    ),
                )
            } else if rclass == 1 && rtype == 28 && length == 16 {
                record_at(message, at) == Ok::<_, MessageError>(
                    (
                        Some(
                            Answer {
                                name,
                                address: IpAddr::V6(
                                    number(message.subrange(data, data + 16)) as u128,
                                ),
                                ttl: ttl as u32,
                            },
                        ),
                        end,
                    ),
                )
            } else {
                record_at(message, at) == Ok::<_, MessageError>((None::<Answer>, end))
            }
        }),
{
    if behind + 14 <= message.len() {
        let data = behind + 10;
        let four = message.subrange(data, data + 4);
        reveal_with_fuel(number, 5);
        assert(four.drop_last() =~= message.subrange(data, data + 3));
        assert(message.subrange(data, data + 3).drop_last() =~= message.subrange(data, data + 2));
        assert(message.subrange(data, data + 2).drop_last() =~= message.subrange(data, data + 1));
        assert(message.subrange(data, data + 1).drop_last() =~= Seq::<u8>::empty());
        assert(number(four) == pair(message, data) * 65536 + pair(message, data + 2));
    }
}

/// The answers that records carry, in the order they are written.
pub open spec fn carried(found: Seq<Option<Answer>>) -> Seq<Answer>
    decreases found.len(),
{
    if found.len() == 0 {
        Seq::empty()
    } else {
        match found[0] {
            Some(answer) => seq![answer] + carried(found.drop_first()),
            None => carried(found.drop_first()),
        }
    }
}

/// A reply that can be walked gives every address its answer section carries, in the order they are
/// written: behind as many questions as the header counts come as many records, each where the one
/// before it ends.
pub proof fn law_every_answer_is_read(
    message: Seq<u8>,
    asked: Seq<int>,
    starts: Seq<int>,
    found: Seq<Option<Answer>>,
)
    requires
        message.len() >= 12,
        asked.len() == pair(message, 4) + 1,
        asked[0] == 12,
        forall|i: int|
            0 <= i < asked.len() - 1 ==> asked[i + 1] <= message.len() && (name_at(
                message,
                #[trigger] asked[i],
            ) matches Ok((_, end)) && end + 4 == asked[i + 1]),
        found.len() == pair(message, 6),
        starts.len() == found.len() + 1,
        starts[0] == asked.last(),
        forall|i: int|
            0 <= i < found.len() ==> record_at(message, #[trigger] starts[i]) == Ok::<
                _,
                MessageError,
            >((found[i], starts[i + 1])),
    ensures
        answers(message) == Ok::<_, MessageError>(carried(found)),
{
    lemma_questions(message, asked);
    lemma_records(message, starts, found);
}

proof fn lemma_questions(message: Seq<u8>, asked: Seq<int>)
    requires
        asked.len() > 0,
        forall|i: int|
            0 <= i < asked.len() - 1 ==> asked[i + 1] <= message.len() && (name_at(
                message,
                #[trigger] asked[i],
            ) matches Ok((_, end)) && end + 4 == asked[i + 1]),
    ensures
        past_questions(message, asked[0], asked.len() - 1) == Ok::<_, MessageError>(asked.last()),
    decreases asked.len(),
{
    if asked.len() > 1 {
        let rest = asked.drop_first();
        assert forall|i: int| 0 <= i < rest.len() - 1 implies rest[i + 1] <= message.len() && (
        name_at(message, #[trigger] rest[i]) matches Ok((_, end)) && end + 4 == rest[i + 1]) by {
            assert(rest[i] == asked[i + 1]);
        }
        assert(name_at(message, asked[0]) is Ok);
        lemma_questions(message, rest);
    }
}

proof fn lemma_records(message: Seq<u8>, starts: Seq<int>, found: Seq<Option<Answer>>)
    requires
        starts.len() == found.len() + 1,
        forall|i: int|
            0 <= i < found.len() ==> record_at(message, #[trigger] starts[i]) == Ok::<
                _,
                MessageError,
            >((found[i], starts[i + 1])),
    ensures
        records_from(message, starts[0], found.len() as int) == Ok::<_, MessageError>(
            carried(found),
        ),
    decreases found.len(),
{
    if found.len() > 0 {
        let rest = found.drop_first();
        let behind = starts.drop_first();
        assert forall|i: int| 0 <= i < rest.len() implies record_at(message, #[trigger] behind[i])
            == Ok::<_, MessageError>((rest[i], behind[i + 1])) by {
            assert(behind[i] == starts[i + 1]);
        }
        assert(record_at(message, starts[0]) == Ok::<_, MessageError>((found[0], starts[1])));
        lemma_records(message, behind, rest);
    }
}

/// A reply is unreadable exactly where a record that its header counts cannot be read: the first that
/// cannot makes an error of the whole.
pub proof fn law_one_bad_record_spoils_a_reply(
    message: Seq<u8>,
    at: int,
    starts: Seq<int>,
    found: Seq<Option<Answer>>,
)
    requires
        message.len() >= 12,
        past_questions(message, 12, pair(message, 4)) == Ok::<_, MessageError>(at),
        starts.len() == found.len() + 1,
        starts[0] == at,
        found.len() < pair(message, 6),
        forall|i: int|
            0 <= i < found.len() ==> record_at(message, #[trigger] starts[i]) == Ok::<
                _,
                MessageError,
            >((found[i], starts[i + 1])),
        record_at(message, starts.last()) is Err,
    ensures
        answers(message) is Err,
{
    lemma_spoiled(message, starts, found, pair(message, 6));
}

proof fn lemma_spoiled(message: Seq<u8>, starts: Seq<int>, found: Seq<Option<Answer>>, count: int)
    requires
        starts.len() == found.len() + 1,
        found.len() < count,
        forall|i: int|
            0 <= i < found.len() ==> record_at(message, #[trigger] starts[i]) == Ok::<
                _,
                MessageError,
            >((found[i], starts[i + 1])),
        record_at(message, starts.last()) is Err,
    ensures
        records_from(message, starts[0], count) is Err,
    decreases found.len(),
{
    if found.len() > 0 {
        let rest = found.drop_first();
        let behind = starts.drop_first();
        assert forall|i: int| 0 <= i < rest.len() implies record_at(message, #[trigger] behind[i])
            == Ok::<_, MessageError>((rest[i], behind[i + 1])) by {
            assert(behind[i] == starts[i + 1]);
        }
        assert(record_at(message, starts[0]) == Ok::<_, MessageError>((found[0], starts[1])));
        lemma_spoiled(message, behind, rest, count - 1);
    }
}

/// A query asks what stands behind its header: a name, then the type and the class, under the number
/// in its first two bytes. One that is shorter than a header, counts no question, or ends before the
/// class does, asks nothing.
pub proof fn law_a_query_asks_what_is_written(message: Seq<u8>)
    ensures
        message.len() < 12 ==> question(message) is Err,
        message.len() >= 12 && pair(message, 4) == 0 ==> question(message) is Err,
        message.len() >= 12 && pair(message, 4) > 0 ==> match name_at(message, 12) {
            Ok((name, end)) => if end + 4 <= message.len() {
                question(message) == Ok::<_, MessageError>(
                    Question {
                        id: pair(message, 0) as u16,
                        name,
                        qtype: pair(message, end) as u16,
                        qclass: pair(message, end + 2) as u16,
                    },
                )
            } else {
                question(message) is Err
            },
            Err(_) => question(message) is Err,
        },
{
}

} // verus!
