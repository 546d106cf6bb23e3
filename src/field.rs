//! A single `tag=value` field and its wire encoding.
use crate::buffer::{buffer_bytes, buffer_put_slice, buffer_put_u8};
use crate::decimal::{decimal, decimal_text, lemma_decimal_len_u32};
use bytes::BytesMut;
use smallvec::SmallVec;
use vstd::prelude::*;

verus! {

/// The byte that closes every field on the wire.
pub const SOH: u8 = 1;

/// The byte between a field's tag and its value: `=`.
pub const EQUALS: u8 = 61;

/// Storage of a field value: kept inline up to 32 bytes, on the heap beyond.
#[verifier::external_body]
#[derive(Debug, PartialEq)]
pub struct FieldBytes {
    inner: SmallVec<[u8; 32]>,
}

/// The bytes that a field value's storage holds, in order.
pub uninterp spec fn field_bytes(v: FieldBytes) -> Seq<u8>;

impl Clone for FieldBytes {
    /// Relies on SmallVec's `Clone`: the copy holds the same elements.
    #[verifier::external_body]
    fn clone(&self) -> (r: Self)
        ensures
            field_bytes(r) == field_bytes(*self),
    {
        FieldBytes { inner: self.inner.clone() }
    }
}

/// Relies on SmallVec::from_vec: the new vector holds the elements of `v`.
#[verifier::external_body]
fn bytes_from_vec(v: Vec<u8>) -> (r: FieldBytes)
    ensures
        field_bytes(r) == v@,
{
    FieldBytes { inner: SmallVec::from_vec(v) }
}

/// Relies on SmallVec::from_slice: the new vector holds a copy of `s`.
#[verifier::external_body]
fn bytes_from_slice(s: &[u8]) -> (r: FieldBytes)
    ensures
        field_bytes(r) == s@,
{
    FieldBytes { inner: SmallVec::from_slice(s) }
}

/// Relies on SmallVec::as_slice: the elements held, in order. Like every
/// slice, it spans at most `isize::MAX` bytes.
#[verifier::external_body]
fn bytes_as_slice(v: &FieldBytes) -> (r: &[u8])
    ensures
        r@ == field_bytes(*v),
        r@.len() <= isize::MAX,
{
    v.inner.as_slice()
}

/// The wire form of a field: the tag in decimal, `=`, the value, the delimiter.
pub open spec fn field_wire(tag: u32, value: Seq<u8>) -> Seq<u8> {
    decimal(tag as nat) + seq![EQUALS] + value + seq![SOH]
}

/// A (tag, value) pair. The value is raw bytes; by convention it does not
/// hold the delimiter, but nothing here enforces that.
#[derive(Debug, Clone, PartialEq)]
pub struct FixField {
    tag: u32,
    value: FieldBytes,
}

impl View for FixField {
    type V = (u32, Seq<u8>);

    closed spec fn view(&self) -> (u32, Seq<u8>) {
        (self.tag, field_bytes(self.value))
    }
}

impl FixField {
    pub fn new(tag: u32, value: Vec<u8>) -> (r: Self)
        ensures
            r@ == (tag, value@),
    {
        FixField { tag, value: bytes_from_vec(value) }
    }

    /// A field whose value is a copy of `value`.
    pub fn from_slice(tag: u32, value: &[u8]) -> (r: Self)
        ensures
            r@ == (tag, value@),
    {
        FixField { tag, value: bytes_from_slice(value) }
    }

    pub fn tag(&self) -> (r: u32)
        ensures
            r == self@.0,
    {
        self.tag
    }

    pub fn value(&self) -> (r: &[u8])
        ensures
            r@ == self@.1,
            r@.len() <= isize::MAX,
    {
        bytes_as_slice(&self.value)
    }

    /// Appends the wire form of this field to `buf`.
    pub fn encode(&self, buf: &mut BytesMut)
        requires
            buffer_bytes(*old(buf)).len() + field_wire(self@.0, self@.1).len() <= isize::MAX,
        ensures
            buffer_bytes(*final(buf)) == buffer_bytes(*old(buf)) + field_wire(self@.0, self@.1),
    {
        let ghost start = buffer_bytes(*buf);
        let digits = decimal_text(self.tag as u64);
        buffer_put_slice(buf, digits.as_slice());
        buffer_put_u8(buf, EQUALS);
        buffer_put_slice(buf, self.value());
        buffer_put_u8(buf, SOH);
        assert(buffer_bytes(*buf) =~= start + field_wire(self@.0, self@.1));
    }

    /// The number of bytes that `encode` appends.
    pub fn encoded_len(&self) -> (r: usize)
        ensures
            r == field_wire(self@.0, self@.1).len(),
    {
        let digits = decimal_text(self.tag as u64);
        proof {
            lemma_decimal_len_u32(self.tag as nat);
        }
        digits.len() + 1 + self.value().len() + 1
    }
}

} // verus!
