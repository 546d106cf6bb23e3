//! The growable output buffer that encoded messages are written into.
use bytes::BufMut;
use bytes::BytesMut;
use vstd::prelude::*;

verus! {

#[verifier::external_type_specification]
#[verifier::external_body]
pub struct ExBytesMut(BytesMut);

/// The bytes that a buffer holds, in order.
pub uninterp spec fn buffer_bytes(b: BytesMut) -> Seq<u8>;

/// Relies on BytesMut::with_capacity: a new buffer holds no bytes. It
/// allocates through `Vec::with_capacity`, which panics past `isize::MAX`
/// bytes.
#[verifier::external_body]
pub(crate) fn buffer_with_capacity(capacity: usize) -> (r: BytesMut)
    requires
        capacity <= isize::MAX,
    ensures
        buffer_bytes(r) == Seq::<u8>::empty(),
{
    BytesMut::with_capacity(capacity)
}

/// Relies on BufMut::put_slice for BytesMut: it appends the bytes of `src`,
/// growing the buffer; growth past `isize::MAX` bytes panics.
#[verifier::external_body]
pub(crate) fn buffer_put_slice(b: &mut BytesMut, src: &[u8])
    requires
        buffer_bytes(*old(b)).len() + src@.len() <= isize::MAX,
    ensures
        buffer_bytes(*final(b)) == buffer_bytes(*old(b)) + src@,
{
    b.put_slice(src)
}

/// Relies on BufMut::put_u8 for BytesMut: it appends one byte.
#[verifier::external_body]
pub(crate) fn buffer_put_u8(b: &mut BytesMut, byte: u8)
    requires
        buffer_bytes(*old(b)).len() + 1 <= isize::MAX,
    ensures
        buffer_bytes(*final(b)) == buffer_bytes(*old(b)).push(byte),
{
    b.put_u8(byte)
}

/// Relies on the `Deref` of BytesMut to a slice: the bytes held, in order.
#[verifier::external_body]
pub(crate) fn buffer_as_slice(b: &BytesMut) -> (r: &[u8])
    ensures
        r@ == buffer_bytes(*b),
{
    &b[..]
}

} // verus!
