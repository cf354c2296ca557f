//! The receive buffer of a connection: a `BytesMut` of the `bytes` crate, and what the framer
//! takes for granted of it.

use bytes::BytesMut;
use vstd::prelude::*;

verus! {

/// `bytes::BytesMut`, a growable buffer of bytes. Nothing inside it is visible to the proofs.
#[verifier::external_type_specification]
#[verifier::external_body]
pub struct ExBytesMut(bytes::BytesMut);

/// The bytes that a buffer holds, from the first to the last.
pub uninterp spec fn contents(buffer: BytesMut) -> Seq<u8>;

/// `BytesMut::with_capacity`: a buffer that holds no bytes yet, whatever room it has.
pub assume_specification[ BytesMut::with_capacity ](capacity: usize) -> (buffer: BytesMut)
    ensures
        contents(buffer) == Seq::<u8>::empty(),
;

/// `BytesMut::len`: the number of bytes that the buffer holds.
pub assume_specification[ BytesMut::len ](buffer: &BytesMut) -> (len: usize)
    ensures
        len == contents(*buffer).len(),
;

/// `BytesMut::extend_from_slice`: appends the given bytes to those that the buffer holds. The
/// crate documents a panic where the room needed overflows `usize`.
pub assume_specification[ BytesMut::extend_from_slice ](buffer: &mut BytesMut, extend: &[u8])
    requires
        contents(*old(buffer)).len() + extend@.len() <= usize::MAX,
    ensures
        contents(*final(buffer)) == contents(*old(buffer)) + extend@,
;

/// `AsRef<[u8]>::as_ref` of `BytesMut`: the bytes that the buffer holds, as a slice.
#[verifier::external_body]
pub(crate) fn as_slice(buffer: &BytesMut) -> (bytes: &[u8])
    ensures
        bytes@ == contents(*buffer),
{
    buffer.as_ref()
}

/// `Buf::advance` of `BytesMut`: drops the first `count` bytes and keeps the others. It panics
/// where `count` is more than the buffer holds.
#[verifier::external_body]
pub(crate) fn advance(buffer: &mut BytesMut, count: usize)
    requires
        count <= contents(*old(buffer)).len(),
    ensures
        contents(*final(buffer)) == contents(*old(buffer)).skip(count as int),
{
    bytes::Buf::advance(buffer, count)
}

} // verus!
