//! The byte containers of the `bytes` crate, as the rest of the library sees them.
//!
//! `Bytes` and `BytesMut` are opaque here. What they hold is named by
//! [`bytes_view`] and [`bytes_mut_view`], and the items below say what each
//! operation does to those contents.
use bytes::{BufMut, Bytes, BytesMut};
use vstd::prelude::*;

verus! {

/// `bytes::Bytes`, a shared immutable byte string.
#[verifier::external_type_specification]
#[verifier::external_body]
pub struct ExBytes(bytes::Bytes);

/// `bytes::BytesMut`, a growable byte buffer.
#[verifier::external_type_specification]
#[verifier::external_body]
pub struct ExBytesMut(bytes::BytesMut);

/// The bytes that a `Bytes` holds, in order.
pub uninterp spec fn bytes_view(b: bytes::Bytes) -> Seq<u8>;

/// The bytes that a `BytesMut` holds, in order.
pub uninterp spec fn bytes_mut_view(b: bytes::BytesMut) -> Seq<u8>;

/// `Bytes::copy_from_slice`: the new value holds a copy of the slice.
pub assume_specification[ bytes::Bytes::copy_from_slice ](data: &[u8]) -> (r: bytes::Bytes)
    ensures
        bytes_view(r) == data@,
;

/// `Bytes::from` for a vector: the new value holds what the vector held.
#[verifier::external_body]
pub(crate) fn bytes_from_vec(data: Vec<u8>) -> (r: Bytes)
    ensures
        bytes_view(r) == data@,
{
    Bytes::from(data)
}

/// `Bytes::deref`: the contents as a slice.
#[verifier::external_body]
pub(crate) fn bytes_as_slice(b: &Bytes) -> (r: &[u8])
    ensures
        r@ == bytes_view(*b),
{
    b
}

/// `BytesMut::with_capacity`: the new buffer is empty.
///
/// A capacity beyond `isize::MAX` panics, so it is excluded.
pub assume_specification[ bytes::BytesMut::with_capacity ](capacity: usize) -> (r: bytes::BytesMut)
    requires
        capacity <= isize::MAX,
    ensures
        bytes_mut_view(r) == Seq::<u8>::empty(),
;

/// `BufMut::put_slice` on a `BytesMut`: the slice is appended.
///
/// A buffer cannot grow beyond `isize::MAX` bytes, so such lengths are
/// excluded.
#[verifier::external_body]
pub(crate) fn bytes_mut_put_slice(b: &mut BytesMut, src: &[u8])
    requires
        bytes_mut_view(*old(b)).len() + src@.len() <= isize::MAX,
    ensures
        bytes_mut_view(*final(b)) == bytes_mut_view(*old(b)) + src@,
{
    b.put_slice(src)
}

/// `BytesMut::split_to`: the first `at` bytes are handed out, the buffer keeps
/// the rest. It panics when there are fewer, so that is excluded.
pub assume_specification[ bytes::BytesMut::split_to ](b: &mut bytes::BytesMut, at: usize) -> (r:
    bytes::BytesMut)
    requires
        at <= bytes_mut_view(*old(b)).len(),
    ensures
        bytes_mut_view(r) == bytes_mut_view(*old(b)).take(at as int),
        bytes_mut_view(*final(b)) == bytes_mut_view(*old(b)).skip(at as int),
;

/// `BytesMut::deref`: the contents as a slice.
#[verifier::external_body]
pub(crate) fn bytes_mut_as_slice(b: &BytesMut) -> (r: &[u8])
    ensures
        r@ == bytes_mut_view(*b),
{
    b
}

/// Appends a slice to a byte vector.
pub(crate) fn append_bytes(to: &mut Vec<u8>, from: &[u8])
    ensures
        final(to)@ == old(to)@ + from@,
{
    to.extend_from_slice(from);
    assert(to@ =~= old(to)@ + from@);
}

} // verus!
