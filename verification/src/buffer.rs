//! The byte buffers of the `bytes` crate, by what they hold.
//!
//! Framed bytes are appended to a `BytesMut`, taken off its front, and frozen into a `Bytes` that
//! can be handed on without copying. Nothing here is proved: each contract says what the crate's
//! method does to the contents. Growing a buffer allocates, which can fail for want of memory as
//! any allocation can.

use bytes::{Buf, BufMut, Bytes, BytesMut};
use vstd::prelude::*;

verus! {

#[verifier::external_type_specification]
#[verifier::external_body]
pub struct ExBytesMut(bytes::BytesMut);

#[verifier::external_type_specification]
#[verifier::external_body]
pub struct ExBytes(bytes::Bytes);

/// The bytes a `BytesMut` holds, front first.
pub uninterp spec fn held(buf: bytes::BytesMut) -> Seq<u8>;

/// The bytes a `Bytes` holds, front first.
pub uninterp spec fn frozen(bytes: bytes::Bytes) -> Seq<u8>;

/// `BytesMut::new`: an empty buffer.
pub assume_specification[ bytes::BytesMut::new ]() -> (buf: bytes::BytesMut)
    ensures
        held(buf) == Seq::<u8>::empty(),
;

/// `BytesMut::len`: how many bytes are held.
pub assume_specification[ bytes::BytesMut::len ](buf: &bytes::BytesMut) -> (len: usize)
    ensures
        len == held(*buf).len(),
;

/// `BytesMut::extend_from_slice`: the slice is appended.
pub assume_specification[ bytes::BytesMut::extend_from_slice ](
    buf: &mut bytes::BytesMut,
    extend: &[u8],
)
    requires
        held(*old(buf)).len() + extend@.len() <= isize::MAX,
    ensures
        held(*final(buf)) == held(*old(buf)) + extend@,
;

/// `BytesMut::split_to`: the first `at` bytes leave in a buffer of their own.
pub assume_specification[ bytes::BytesMut::split_to ](
    buf: &mut bytes::BytesMut,
    at: usize,
) -> (taken_off: bytes::BytesMut)
    requires
        at <= held(*old(buf)).len(),
    ensures
        held(taken_off) == held(*old(buf)).take(at as int),
        held(*final(buf)) == held(*old(buf)).skip(at as int),
;

/// `BytesMut::freeze`: the same bytes, no longer changed.
pub assume_specification[ bytes::BytesMut::freeze ](buf: bytes::BytesMut) -> (bytes: bytes::Bytes)
    ensures
        frozen(bytes) == held(buf),
;

/// `Bytes::len`: how many bytes are held.
pub assume_specification[ bytes::Bytes::len ](bytes: &bytes::Bytes) -> (len: usize)
    ensures
        len == frozen(*bytes).len(),
;

/// `BytesMut::reserve`: nothing that is held changes.
pub assume_specification[ bytes::BytesMut::reserve ](buf: &mut bytes::BytesMut, additional: usize)
    requires
        held(*old(buf)).len() + additional <= isize::MAX,
    ensures
        held(*final(buf)) == held(*old(buf)),
;

/// `BufMut::put_u8` of a `BytesMut`: one byte is appended.
#[verifier::external_body]
pub(crate) fn put_u8(buf: &mut BytesMut, byte: u8)
    requires
        held(*old(buf)).len() + 1 <= isize::MAX,
    ensures
        held(*final(buf)) == held(*old(buf)).push(byte),
{
    buf.put_u8(byte)
}

/// `BufMut::put_slice` of a `BytesMut`: the slice is appended.
#[verifier::external_body]
pub(crate) fn put_slice(buf: &mut BytesMut, bytes: &[u8])
    requires
        held(*old(buf)).len() + bytes@.len() <= isize::MAX,
    ensures
        held(*final(buf)) == held(*old(buf)) + bytes@,
{
    buf.put_slice(bytes)
}

/// `Buf::advance` of a `BytesMut`: the first `count` bytes are dropped.
#[verifier::external_body]
pub(crate) fn advance(buf: &mut BytesMut, count: usize)
    requires
        count <= held(*old(buf)).len(),
    ensures
        held(*final(buf)) == held(*old(buf)).skip(count as int),
{
    buf.advance(count)
}

/// `Buf::advance` of a `Bytes`: the first `count` bytes are dropped.
#[verifier::external_body]
pub(crate) fn advance_frozen(bytes: &mut Bytes, count: usize)
    requires
        count <= frozen(*old(bytes)).len(),
    ensures
        frozen(*final(bytes)) == frozen(*old(bytes)).skip(count as int),
{
    bytes.advance(count)
}

/// `AsRef::as_ref` of a `BytesMut`: what it holds, as a slice.
#[verifier::external_body]
pub(crate) fn as_slice(buf: &BytesMut) -> (slice: &[u8])
    ensures
        slice@ == held(*buf),
{
    buf.as_ref()
}

/// `AsRef::as_ref` of a `Bytes`: what it holds, as a slice.
#[verifier::external_body]
pub(crate) fn frozen_slice(bytes: &Bytes) -> (slice: &[u8])
    ensures
        slice@ == frozen(*bytes),
{
    bytes.as_ref()
}

} // verus!
