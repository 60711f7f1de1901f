//! HTTP capsules: how IP packets travel inside the HTTP/2 stream.
//!
//! Over QUIC, CONNECT-IP uses real datagrams. Over HTTP/2 there are none, so the tunnel borrows the
//! capsule protocol: the body is an endless stream of `type · length · payload` records, and type 0
//! carries one IP packet. Both numbers are QUIC variable-length integers, so a small packet costs
//! two bytes of framing.
//!
//! Nothing here knows about IP.

use bytes::BytesMut;
use vstd::prelude::*;
use crate::buffer::{advance, as_slice, held, put_slice};
use crate::text::{between, decimal, digits};
use crate::transport::varint;
use crate::transport::varint::{decoded, encoded};

verus! {

/// The capsule type that carries a datagram. The only one this tunnel sends or reads.
pub const DATAGRAM: u64 = 0;

/// The largest capsule this tunnel will wait for.
///
/// A length is a number the other end writes, and the varint encoding lets it write one up to
/// 2^62. Without a ceiling, a stream declaring such a length would have this side buffering every
/// byte that arrived until the whole of it was there, which is never. Sixty-five kilobytes is
/// larger than any packet a tunnel with a 1280-byte MTU carries.
pub const MAX_CAPSULE: u64 = 65_535;

/// A capsule longer than anything this tunnel carries.
///
/// The stream cannot be resynchronised past one (a capsule's length is how the next one's start is
/// found), so this ends the tunnel rather than skipping anything, and the engine opens another.
#[derive(Debug, Clone, Copy, PartialEq, Eq, Structural)]
pub struct TooLong(pub u64);

/// What is said about a capsule that is too long.
pub open spec fn too_long_text(too_long: TooLong) -> Seq<char> {
    "the endpoint declared a capsule of "@ + digits(too_long.0 as nat)
        + " bytes, which no packet this tunnel carries reaches"@
}

impl TooLong {
    /// What is said about it.
    pub fn text(&self) -> (text: String)
        ensures
            text@ == too_long_text(*self),
    {
        let length = decimal(self.0 as u128);
        between(
            "the endpoint declared a capsule of ",
            length.as_str(),
            " bytes, which no packet this tunnel carries reaches",
        )
    }
}

/// One datagram as a capsule.
pub open spec fn capsule(payload: Seq<u8>) -> Seq<u8> {
    encoded(DATAGRAM) + encoded(payload.len() as u64) + payload
}

/// What the front of a capsule stream is.
pub enum Front {
    /// A capsule that has not all arrived.
    Partial,
    /// A capsule of a declared length that is not waited for.
    TooLong(u64),
    /// A whole capsule: its type, and where its payload starts and ends.
    Whole(u64, int, int),
}

/// What the front of a capsule stream is, read off its bytes.
pub open spec fn front(stream: Seq<u8>) -> Front {
    match decoded(stream) {
        None => Front::Partial,
        Some((kind, kind_len)) => match decoded(stream.skip(kind_len)) {
            None => Front::Partial,
            Some((len, len_len)) => {
                let start = kind_len + len_len;
                if len > MAX_CAPSULE {
                    Front::TooLong(len)
                } else if stream.len() < start + len {
                    Front::Partial
                } else {
                    Front::Whole(kind, start, start + len)
                }
            },
        },
    }
}

/// Frame one datagram as a capsule.
pub fn encode_datagram(payload: &[u8]) -> (out: BytesMut)
    requires
        payload@.len() <= varint::MAX,
        payload@.len() + 9 <= isize::MAX,
    ensures
        held(out) == capsule(payload@),
{
    let mut out = BytesMut::new();
    encode_datagram_into(&mut out, payload);
    assert(held(out) =~= capsule(payload@));
    out
}

/// The same capsule, appended to a buffer that already holds others.
///
/// What this is for: several packets written as one run rather than one apiece. The stream does not
/// care where one capsule ends and the next begins, so a run of them is one write instead of one
/// per packet.
pub fn encode_datagram_into(out: &mut BytesMut, payload: &[u8])
    requires
        payload@.len() <= varint::MAX,
        held(*old(out)).len() + payload@.len() + 9 <= isize::MAX,
    ensures
        held(*final(out)) == held(*old(out)) + capsule(payload@),
{
    let ghost before = held(*out);
    out.reserve(varint::len(DATAGRAM) + varint::len(payload.len() as u64) + payload.len());
    varint::put(out, DATAGRAM);
    varint::put(out, payload.len() as u64);
    put_slice(out, payload);
    assert(held(*out) =~= before + capsule(payload@));
}

/// Pull one whole capsule out of `buf`, or `None` if it has not all arrived.
///
/// A capsule of a type this tunnel does not carry is consumed and reported as `Some(None)`. The
/// stream has to stay in sync even for records nothing reads, and treating them as an error would
/// tear down a healthy tunnel over a message it was free to ignore.
pub fn take_capsule(buf: &mut BytesMut) -> (taken: Result<Option<Option<BytesMut>>, TooLong>)
    ensures
        match front(held(*old(buf))) {
            Front::Partial => taken matches Ok(None) && held(*final(buf)) == held(*old(buf)),
            Front::TooLong(len) => taken matches Err(TooLong(declared)) && declared == len && held(
                *final(buf),
            ) == held(*old(buf)),
            Front::Whole(kind, start, end) => {
                &&& held(*final(buf)) == held(*old(buf)).skip(end)
                &&& match taken {
                    Ok(Some(Some(payload))) => kind == DATAGRAM && held(payload) == held(
                        *old(buf),
                    ).subrange(start, end),
                    Ok(Some(None)) => kind != DATAGRAM,
                    _ => false,
                }
            },
        },
{
    let ghost stream = held(*buf);
    let (kind, kind_len) = match varint::get(as_slice(buf)) {
        Some(read) => read,
        None => {
            return Ok(None);
        },
    };
    let slice = as_slice(buf);
    let rest = vstd::slice::slice_subrange(slice, kind_len, slice.len());
    assert(rest@ =~= stream.skip(kind_len as int));
    let (payload_len, len_len) = match varint::get(rest) {
        Some(read) => read,
        None => {
            return Ok(None);
        },
    };
    if payload_len > MAX_CAPSULE {
        return Err(TooLong(payload_len));
    }
    let start: usize = kind_len + len_len;
    if buf.len() - start < payload_len as usize {
        return Ok(None);
    }
    advance(buf, start);
    let payload = buf.split_to(payload_len as usize);
    proof {
        let end = start + payload_len;
        assert(stream.skip(start as int).take(payload_len as int) =~= stream.subrange(
            start as int,
            end,
        ));
        assert(stream.skip(start as int).skip(payload_len as int) =~= stream.skip(end));
    }
    if kind == DATAGRAM {
        Ok(Some(Some(payload)))
    } else {
        Ok(Some(None))
    }
}

/// A datagram survives the round trip: framed and followed by anything at all, it comes out whole
/// with exactly its own bytes consumed.
pub proof fn law_capsule_round_trip(payload: Seq<u8>, rest: Seq<u8>)
    requires
        payload.len() <= MAX_CAPSULE,
    ensures
        ({
            let stream = capsule(payload) + rest;
            match front(stream) {
                Front::Whole(kind, start, end) => {
                    &&& kind == DATAGRAM
                    &&& stream.subrange(start, end) == payload
                    &&& stream.skip(end) == rest
                },
                _ => false,
            }
        }),
{
    let stream = capsule(payload) + rest;
    let head = encoded(DATAGRAM);
    let length = encoded(payload.len() as u64);
    varint::law_varint_round_trip(DATAGRAM, length + payload + rest);
    varint::law_varint_round_trip(payload.len() as u64, payload + rest);
    assert(stream =~= head + (length + payload + rest));
    assert(stream.skip(head.len() as int) =~= length + (payload + rest));
    let start = head.len() + length.len();
    assert(stream.subrange(start as int, (start + payload.len()) as int) =~= payload);
    assert(stream.skip((start + payload.len()) as int) =~= rest);
}

/// A capsule is never acted on early, nor read differently for what follows it: every strict
/// prefix of a whole capsule is partial, and bytes behind it change nothing.
pub proof fn law_capsules_survive_splitting(stream: Seq<u8>, more: Seq<u8>)
    ensures
        match front(stream) {
            Front::Whole(kind, start, end) => {
                &&& 0 < start <= end <= stream.len()
                &&& front(stream + more) == Front::Whole(kind, start, end)
                &&& forall|cut: int|
                    0 <= cut < end ==> front(#[trigger] stream.take(cut)) is Partial
            },
            Front::TooLong(len) => front(stream + more) == Front::TooLong(len),
            Front::Partial => true,
        },
{
    if let Some((kind, kind_len)) = decoded(stream) {
        varint::law_decoding_needs_its_bytes_and_no_more(stream, more);
        let rest = stream.skip(kind_len);
        if let Some((len, len_len)) = decoded(rest) {
            varint::law_decoding_needs_its_bytes_and_no_more(rest, more);
            assert((stream + more).skip(kind_len) =~= rest + more);
            if let Front::Whole(_, start, end) = front(stream) {
                assert forall|cut: int| 0 <= cut < end implies front(
                    #[trigger] stream.take(cut),
                ) is Partial by {
                    if cut >= kind_len {
                        let tail = stream.skip(cut);
                        assert(stream =~= stream.take(cut) + tail);
                        if decoded(stream.take(cut)) is Some {
                            varint::law_decoding_needs_its_bytes_and_no_more(
                                stream.take(cut),
                                tail,
                            );
                        }
                        assert(stream.take(cut).skip(kind_len) =~= rest.take(cut - kind_len));
                        if cut - kind_len >= len_len {
                            let inner = rest.take(cut - kind_len);
                            assert(rest =~= inner + rest.skip(cut - kind_len));
                            if decoded(inner) is Some {
                                varint::law_decoding_needs_its_bytes_and_no_more(
                                    inner,
                                    rest.skip(cut - kind_len),
                                );
                            }
                        }
                    }
                }
            }
        }
    }
}

/// A capsule is its type, the length of what it carries and that, each of the first two as short as
/// can be; a datagram's type is 0. One of more than 65535 bytes is refused as soon as it says so, and
/// one that has not all arrived is waited for.
pub proof fn law_a_capsule_is_its_type_its_length_and_its_payload(
    kind: u64,
    length: u64,
    payload: Seq<u8>,
)
    requires
        kind <= 0x3fff_ffff_ffff_ffff,
        length <= 0x3fff_ffff_ffff_ffff,
    ensures
        ({
            let stream = encoded(kind) + encoded(length) + payload;
            let start = encoded(kind).len() + encoded(length).len();
            &&& length > 65_535 ==> front(stream) == Front::TooLong(length)
            &&& length <= 65_535 && payload.len() < length ==> front(stream) is Partial
            &&& length <= 65_535 && payload.len() >= length ==> front(stream) == Front::Whole(
                kind,
                start as int,
                start + length,
            )
        }),
        payload.len() < 64 ==> capsule(payload) == seq![0u8, payload.len() as u8] + payload,
{
    let stream = encoded(kind) + encoded(length) + payload;
    crate::transport::varint::law_varint_round_trip(kind, encoded(length) + payload);
    crate::transport::varint::law_varint_round_trip(length, payload);
    assert(stream =~= encoded(kind) + (encoded(length) + payload));
    assert(stream.skip(encoded(kind).len() as int) =~= encoded(length) + payload);
    if payload.len() < 64 {
        assert(capsule(payload) =~= seq![0u8, payload.len() as u8] + payload);
    }
}

} // verus!
