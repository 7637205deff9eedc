//! The byte containers of the `bytes` crate, as far as the library uses them.
//! Nothing here is proved: each contract states what the crate's source shows.

use bytes::{Buf, Bytes, BytesMut};
use vstd::prelude::*;

verus! {

/// `bytes::BytesMut`, a growable buffer of bytes, taken as opaque.
#[verifier::external_type_specification]
#[verifier::external_body]
pub struct ExBytesMut(bytes::BytesMut);

/// `bytes::Bytes`, a shared immutable run of bytes, taken as opaque.
#[verifier::external_type_specification]
#[verifier::external_body]
pub struct ExBytes(bytes::Bytes);

/// The bytes that a `BytesMut` holds, first to last.
pub uninterp spec fn buffered(buf: BytesMut) -> Seq<u8>;

/// The bytes that a `Bytes` holds, first to last.
pub uninterp spec fn contents(bytes: Bytes) -> Seq<u8>;

/// `BytesMut::with_capacity`: a buffer that holds no bytes yet. The capacity
/// is kept within what an allocation may ask for.
#[verifier::external_body]
pub(crate) fn buffer_with_capacity(capacity: usize) -> (buf: BytesMut)
    requires
        capacity <= isize::MAX,
    ensures
        buffered(buf) == Seq::<u8>::empty(),
{
    BytesMut::with_capacity(capacity)
}

/// `BytesMut::len`: the number of bytes held.
#[verifier::external_body]
pub(crate) fn buffer_len(buf: &BytesMut) -> (len: usize)
    ensures
        len == buffered(*buf).len(),
{
    buf.len()
}

/// `BytesMut::extend_from_slice`: the given bytes are added at the end, and
/// what was held stays in front of them. The new length must fit in `usize`.
#[verifier::external_body]
pub(crate) fn buffer_extend(buf: &mut BytesMut, bytes: &[u8])
    requires
        buffered(*old(buf)).len() + bytes@.len() <= usize::MAX,
    ensures
        buffered(*final(buf)) == buffered(*old(buf)) + bytes@,
{
    buf.extend_from_slice(bytes)
}

/// `BytesMut::as_ref`: the bytes held, as a slice.
#[verifier::external_body]
pub(crate) fn buffer_bytes(buf: &BytesMut) -> (bytes: &[u8])
    ensures
        bytes@ == buffered(*buf),
{
    buf.as_ref()
}

/// `Buf::advance` on a `BytesMut`: the first `count` bytes leave, the others
/// stay in order. It panics past the end, which `requires` leaves out.
#[verifier::external_body]
pub(crate) fn buffer_advance(buf: &mut BytesMut, count: usize)
    requires
        count <= buffered(*old(buf)).len(),
    ensures
        buffered(*final(buf)) == buffered(*old(buf)).skip(count as int),
{
    buf.advance(count)
}

/// `Bytes::from` on a `Vec<u8>`: the same bytes, in the same order.
#[verifier::external_body]
pub(crate) fn bytes_from_vec(data: Vec<u8>) -> (bytes: Bytes)
    ensures
        contents(bytes) == data@,
{
    Bytes::from(data)
}

/// `Bytes::as_ref`: the bytes held, as a slice.
#[verifier::external_body]
pub(crate) fn bytes_as_slice(bytes: &Bytes) -> (data: &[u8])
    ensures
        data@ == contents(*bytes),
{
    bytes.as_ref()
}

} // verus!
