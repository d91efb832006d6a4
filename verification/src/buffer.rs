//! The byte buffer the decoder reads from and the encoder writes to.
//!
//! `bytes::BytesMut` is opaque to the verifier. Its contents are named by
//! [`buffered`], and the few methods the library calls are given contracts
//! over that name; none of these contracts is proved here.

use bytes::Buf;
use bytes::BytesMut;
use vstd::prelude::*;

verus! {

/// `bytes::BytesMut`, a growable byte buffer. Nothing is claimed of a
/// value of it but through [`buffered`].
#[verifier::external_type_specification]
#[verifier::external_body]
pub struct ExBytesMut(bytes::BytesMut);

/// The bytes a `BytesMut` currently holds, front first.
pub uninterp spec fn buffered(buf: BytesMut) -> Seq<u8>;

/// `BytesMut::as_ref`: the held bytes as a slice, in order.
#[verifier::external_body]
pub(crate) fn contents(buf: &BytesMut) -> (slice: &[u8])
    ensures
        slice@ == buffered(*buf),
{
    buf.as_ref()
}

/// `Buf::advance` on a `BytesMut`: drops the first `count` bytes and keeps
/// the rest. The outside method panics when `count` exceeds the length.
#[verifier::external_body]
pub(crate) fn discard_front(buf: &mut BytesMut, count: usize)
    requires
        count <= buffered(*old(buf)).len(),
    ensures
        buffered(*final(buf)) == buffered(*old(buf)).skip(count as int),
{
    buf.advance(count)
}

/// `BytesMut::extend_from_slice`: appends `extend` behind the held bytes.
/// The outside method reserves room first, and panics when the capacity
/// that it asks of the allocator passes `isize::MAX`; the new length is
/// required to stay within that.
#[verifier::external_body]
pub(crate) fn append(buf: &mut BytesMut, extend: &[u8])
    requires
        buffered(*old(buf)).len() + extend@.len() <= isize::MAX,
    ensures
        buffered(*final(buf)) == buffered(*old(buf)) + extend@,
{
    buf.extend_from_slice(extend)
}

/// `BytesMut::from(&[u8])`: a buffer that holds a copy of `bytes`.
#[verifier::external_body]
pub(crate) fn buffer_from(bytes: &[u8]) -> (buf: BytesMut)
    ensures
        buffered(buf) == bytes@,
{
    BytesMut::from(bytes)
}

} // verus!
