//! A message: fields in insertion order, indexed by tag; and the encoding of
//! a message into a framed, checksummed wire buffer and back.
use crate::buffer::{
    buffer_as_slice, buffer_bytes, buffer_put_slice, buffer_put_u8, buffer_with_capacity,
};
use crate::decimal::{
    decimal, decimal_text, parse_u32, parse_u32_spec, three_digit_text, three_digits, ZERO,
};
use crate::error::FixError;
use crate::field::{field_wire, FixField, EQUALS, SOH};
use crate::scan::{checksum, checksum_of, find_first, first_of, lemma_first_of};
use crate::tags::{BEGIN_STRING_TAG, BODY_LENGTH_TAG, CHECKSUM_TAG, MSG_TYPE_TAG};
use bytes::BytesMut;
use rustc_hash::FxHashMap;
use smallvec::SmallVec;
use vstd::prelude::*;

verus! {

/// The number of fields that a typical message holds.
const TYPICAL_MESSAGE_FIELDS: usize = 16;

/// Index from tag to the field last inserted under that tag.
#[verifier::external_body]
#[derive(Debug)]
pub struct FieldTable {
    inner: FxHashMap<u32, FixField>,
}

/// The entries of a field table.
pub uninterp spec fn table_entries(t: FieldTable) -> Map<u32, FixField>;

impl Clone for FieldTable {
    /// Relies on HashMap's `Clone`: a map with a clone of every entry. The
    /// fields' own `Clone` is derived, so nothing is stated of the copies.
    #[verifier::external_body]
    fn clone(&self) -> (r: Self) {
        FieldTable { inner: self.inner.clone() }
    }
}

/// Relies on FxHashMap::default: a new map holds no entries.
#[verifier::external_body]
fn table_new() -> (r: FieldTable)
    ensures
        table_entries(r).dom() == Set::<u32>::empty(),
{
    FieldTable { inner: FxHashMap::default() }
}

/// Relies on HashMap::with_capacity_and_hasher: a new map holds no entries.
/// Its table takes a few machine words per slot; the bound keeps that far
/// below `isize::MAX` bytes, past which an allocation size overflows.
#[verifier::external_body]
fn table_with_capacity(capacity: usize) -> (r: FieldTable)
    requires
        capacity <= isize::MAX / 256,
    ensures
        table_entries(r).dom() == Set::<u32>::empty(),
{
    FieldTable { inner: FxHashMap::with_capacity_and_hasher(capacity, Default::default()) }
}

/// Relies on HashMap::insert: `tag` then maps to `field`, other entries stay.
#[verifier::external_body]
fn table_insert(t: &mut FieldTable, tag: u32, field: FixField)
    ensures
        table_entries(*final(t)) == table_entries(*old(t)).insert(tag, field),
{
    t.inner.insert(tag, field);
}

/// Relies on HashMap::get: the entry under `tag`, if there is one.
#[verifier::external_body]
fn table_get(t: &FieldTable, tag: u32) -> (r: Option<&FixField>)
    ensures
        match r {
            Some(f) => table_entries(*t).contains_key(tag) && *f == table_entries(*t)[tag],
            None => !table_entries(*t).contains_key(tag),
        },
{
    t.inner.get(&tag)
}

/// Relies on HashMap::len: the number of entries.
#[verifier::external_body]
fn table_len(t: &FieldTable) -> (r: usize)
    ensures
        r == table_entries(*t).dom().len(),
{
    t.inner.len()
}

/// The tags of a message in insertion order, inline up to sixteen.
#[verifier::external_body]
#[derive(Debug)]
pub struct TagList {
    inner: SmallVec<[u32; 16]>,
}

/// The tags that a tag list holds, in order.
pub uninterp spec fn list_tags(l: TagList) -> Seq<u32>;

/// The capacity that a tag list was made with; it never holds fewer slots.
pub uninterp spec fn list_min_capacity(l: TagList) -> nat;

impl Clone for TagList {
    /// Relies on SmallVec's `Clone`: the copy holds the same elements.
    #[verifier::external_body]
    fn clone(&self) -> (r: Self)
        ensures
            list_tags(r) == list_tags(*self),
    {
        TagList { inner: self.inner.clone() }
    }
}

/// Relies on SmallVec::new: a new vector is empty, made with no capacity
/// asked for.
#[verifier::external_body]
fn tags_new() -> (r: TagList)
    ensures
        list_tags(r) == Seq::<u32>::empty(),
        list_min_capacity(r) == 0,
{
    TagList { inner: SmallVec::new() }
}

/// Relies on SmallVec::with_capacity: a new vector is empty, with room for
/// at least `capacity` elements. Beyond the inline sixteen it allocates
/// `capacity` elements of four bytes, and panics where that passes
/// `isize::MAX` bytes.
#[verifier::external_body]
fn tags_with_capacity(capacity: usize) -> (r: TagList)
    requires
        capacity <= isize::MAX / 4,
    ensures
        list_tags(r) == Seq::<u32>::empty(),
        list_min_capacity(r) == capacity,
{
    TagList { inner: SmallVec::with_capacity(capacity) }
}

/// Relies on SmallVec::push: it appends `tag`. Growth doubles the capacity
/// and panics once the allocation would pass `isize::MAX` bytes.
#[verifier::external_body]
fn tags_push(l: &mut TagList, tag: u32)
    requires
        list_tags(*old(l)).len() < isize::MAX / 8,
    ensures
        list_tags(*final(l)) == list_tags(*old(l)).push(tag),
        list_min_capacity(*final(l)) == list_min_capacity(*old(l)),
{
    l.inner.push(tag)
}

/// Relies on SmallVec::as_slice: the elements held, in order.
#[verifier::external_body]
fn tags_as_slice(l: &TagList) -> (r: &[u32])
    ensures
        r@ == list_tags(*l),
{
    l.inner.as_slice()
}

/// Relies on SmallVec::capacity: the number of elements that fit without
/// growing, never fewer than it holds. Growth only enlarges it, so it stays
/// at least what the vector was made with.
#[verifier::external_body]
fn tags_capacity(l: &TagList) -> (r: usize)
    ensures
        r >= list_tags(*l).len(),
        r >= list_min_capacity(*l),
{
    l.inner.capacity()
}

/// What a message holds: its tags in insertion order (a tag inserted twice
/// stands there twice), and the value last inserted under each tag.
pub struct MessageView {
    pub order: Seq<u32>,
    pub fields: Map<u32, Seq<u8>>,
}

impl MessageView {
    pub open spec fn empty() -> MessageView {
        MessageView { order: Seq::empty(), fields: Map::empty() }
    }

    /// The message after inserting the field (tag, value).
    pub open spec fn add(self, tag: u32, value: Seq<u8>) -> MessageView {
        MessageView { order: self.order.push(tag), fields: self.fields.insert(tag, value) }
    }

    /// Every tag in the order has a value and every value's tag is in the order.
    pub open spec fn consistent(self) -> bool {
        &&& self.fields.dom().finite()
        &&& forall|t: u32| self.fields.contains_key(t) <==> self.order.contains(t)
        &&& forall|t: u32| self.fields.contains_key(t) ==> (#[trigger] self.fields[t]).len() <= isize::MAX
    }
}

/// The tags that the framing owns: their fields are never copied into the body.
pub open spec fn framing_tag(t: u32) -> bool {
    t == 8 || t == 9 || t == 35 || t == 10
}

/// The fields of `order` that are not framing fields, in order, each with
/// its current value.
pub open spec fn body_fields_wire(order: Seq<u32>, fields: Map<u32, Seq<u8>>) -> Seq<u8>
    decreases order.len(),
{
    if order.len() == 0 {
        Seq::empty()
    } else {
        let t = order.last();
        if framing_tag(t) {
            body_fields_wire(order.drop_last(), fields)
        } else {
            body_fields_wire(order.drop_last(), fields) + field_wire(t, fields[t])
        }
    }
}

/// The body: the message-type field, then the other fields.
pub open spec fn body_wire(m: MessageView) -> Seq<u8> {
    field_wire(35, m.fields[35]) + body_fields_wire(m.order, m.fields)
}

/// The begin-string field, then the body-length field.
pub open spec fn head_wire(m: MessageView) -> Seq<u8> {
    field_wire(8, m.fields[8]) + field_wire(9, decimal(body_wire(m).len()))
}

/// The whole encoded message: header, body, and checksum field.
pub open spec fn wire(m: MessageView) -> Seq<u8> {
    let pre = head_wire(m) + body_wire(m);
    pre + field_wire(10, three_digits(checksum_of(pre)))
}

/// What `encode` yields for a message.
pub open spec fn encode_spec(m: MessageView) -> Result<Seq<u8>, FixError> {
    if !m.fields.contains_key(8) {
        Err(FixError::MissingField(8))
    } else if !m.fields.contains_key(35) {
        Err(FixError::MissingField(35))
    } else {
        Ok(wire(m))
    }
}

/// The encoded message would fit in memory.
pub open spec fn encodable(m: MessageView) -> bool {
    m.fields.contains_key(8) && m.fields.contains_key(35) ==> wire(m).len() <= isize::MAX
}

/// A field span (the bytes before a delimiter) read as tag and value: the
/// tag is the text before the first `=`, the value all that follows it.
pub open spec fn span_field(span: Seq<u8>) -> Option<(u32, Seq<u8>)> {
    match first_of(span, EQUALS) {
        None => None,
        Some(q) => match parse_u32_spec(span.subrange(0, q as int)) {
            None => None,
            Some(t) => Some((t, span.subrange(q + 1 as int, span.len() as int))),
        },
    }
}

/// The field that starts at `pos`, with the position after its delimiter.
pub open spec fn next_field(data: Seq<u8>, pos: nat) -> Option<(u32, Seq<u8>, nat)> {
    match first_of(data.subrange(pos as int, data.len() as int), SOH) {
        None => None,
        Some(e) => match span_field(data.subrange(pos as int, (pos + e) as int)) {
            None => None,
            Some((t, v)) => Some((t, v, pos + e + 1)),
        },
    }
}

/// Reads the field at `pos`, which must carry `tag`, into `m`.
pub open spec fn expect_field(data: Seq<u8>, pos: nat, tag: u32, m: MessageView) -> Option<
    (MessageView, nat),
> {
    match next_field(data, pos) {
        Some((t, v, n)) => if t == tag {
            Some((m.add(t, v), n))
        } else {
            None
        },
        None => None,
    }
}

/// The three header fields, in their fixed order.
pub open spec fn header_spec(data: Seq<u8>) -> Option<(MessageView, nat)> {
    match expect_field(data, 0, 8, MessageView::empty()) {
        None => None,
        Some((m1, at1)) => match expect_field(data, at1, 9, m1) {
            None => None,
            Some((m2, at2)) => expect_field(data, at2, 35, m2),
        },
    }
}

/// Reads every field from `pos` to the end into `m`.
pub open spec fn scan_fields(data: Seq<u8>, pos: nat, m: MessageView) -> Option<MessageView>
    decreases data.len() - pos
    via scan_fields_decreases
{
    if pos >= data.len() {
        Some(m)
    } else {
        match first_of(data.subrange(pos as int, data.len() as int), SOH) {
            None => None,
            Some(e) => match span_field(data.subrange(pos as int, (pos + e) as int)) {
                None => None,
                Some((t, v)) => scan_fields(data, pos + e + 1, m.add(t, v)),
            },
        }
    }
}

/// What `decode` yields for a buffer. The checksum is taken over all bytes
/// but the last seven, the room of a checksum field that closes the buffer.
pub open spec fn decode_spec(data: Seq<u8>) -> Result<MessageView, FixError> {
    match header_spec(data) {
        None => Err(FixError::InvalidFormat),
        Some((h, p)) => match scan_fields(data, p, h) {
            None => Err(FixError::InvalidFormat),
            Some(m) => if !m.fields.contains_key(10) {
                Err(FixError::MissingField(10))
            } else {
                match parse_u32_spec(m.fields[10]) {
                    None => Err(FixError::InvalidFormat),
                    Some(c) => if c as nat == checksum_of(data.subrange(0, data.len() - 7)) {
                        Ok(m)
                    } else {
                        Err(FixError::InvalidChecksum)
                    },
                }
            },
        },
    }
}

#[via_fn]
proof fn scan_fields_decreases(data: Seq<u8>, pos: nat, m: MessageView) {
    if pos < data.len() {
        lemma_first_of(data.subrange(pos as int, data.len() as int), SOH);
    }
}

pub proof fn lemma_body_prefix_len(order: Seq<u32>, fields: Map<u32, Seq<u8>>, i: int)
    requires
        0 <= i <= order.len(),
    ensures
        body_fields_wire(order.subrange(0, i), fields).len() <= body_fields_wire(order, fields).len(),
    decreases order.len(),
{
    if i < order.len() {
        lemma_body_prefix_len(order.drop_last(), fields, i);
        assert(order.drop_last().subrange(0, i) =~= order.subrange(0, i));
    } else {
        assert(order.subrange(0, i) =~= order);
    }
}

/// The wire size of the entries of `order` other than the begin-string and
/// body-length ones, each with its current value; repeats count again.
pub open spec fn order_size(order: Seq<u32>, fields: Map<u32, Seq<u8>>) -> nat
    decreases order.len(),
{
    if order.len() == 0 {
        0
    } else {
        let t = order.last();
        order_size(order.drop_last(), fields) + if t == 8 || t == 9 {
            0
        } else {
            field_wire(t, fields[t]).len()
        }
    }
}

/// The output size that encoding plans for: the begin-string field, a
/// body-length field of up to ten digits, the entries that `order_size`
/// counts, and the checksum field.
pub open spec fn size_estimate(m: MessageView) -> nat {
    field_wire(8, m.fields[8]).len() + 13 + order_size(m.order, m.fields) + 7
}

/// `n`, or `isize::MAX` where `n` is larger.
pub open spec fn capped(n: nat) -> nat {
    if n <= isize::MAX {
        n
    } else {
        isize::MAX as nat
    }
}

/// The entries that `order_size` counts cover the body: every field copied
/// into it, and the message-type field at least once where the order holds it.
pub proof fn lemma_order_size(order: Seq<u32>, fields: Map<u32, Seq<u8>>)
    ensures
        order_size(order, fields) >= body_fields_wire(order, fields).len() + if order.contains(
            35,
        ) {
            field_wire(35, fields[35]).len()
        } else {
            0
        },
    decreases order.len(),
{
    if order.len() > 0 {
        let o2 = order.drop_last();
        lemma_order_size(o2, fields);
        if o2.contains(35) {
            let k = choose|k: int| 0 <= k < o2.len() && o2[k] == 35;
            assert(order[k] == 35);
        }
        if order.contains(35) && order.last() != 35 {
            let k = choose|k: int| 0 <= k < order.len() && order[k] == 35;
            assert(o2[k] == 35);
        }
    }
}

/// `a + b`, or `isize::MAX` where the sum is larger.
fn add_capped(a: usize, b: usize) -> (r: usize)
    requires
        a <= isize::MAX,
    ensures
        r as nat == capped((a + b) as nat),
{
    if b > isize::MAX as usize - a {
        isize::MAX as usize
    } else {
        a + b
    }
}

/// A message: an ordered collection of fields keyed by tag.
#[derive(Debug, Clone)]
pub struct FixMessage {
    fields: FieldTable,
    field_order: TagList,
}

impl View for FixMessage {
    type V = MessageView;

    closed spec fn view(&self) -> MessageView {
        MessageView {
            order: list_tags(self.field_order),
            fields: Map::new(
                |t: u32| table_entries(self.fields).contains_key(t),
                |t: u32| table_entries(self.fields)[t]@.1,
            ),
        }
    }
}

impl FixMessage {
    /// The internal invariant: each entry sits under its own tag, and the
    /// view is consistent.
    pub closed spec fn wf(&self) -> bool {
        &&& table_entries(self.fields).dom().finite()
        &&& forall|t: u32|
            table_entries(self.fields).contains_key(t) ==> (#[trigger] table_entries(
                self.fields,
            )[t])@.0 == t
        &&& self@.consistent()
    }

    pub proof fn lemma_wf(&self)
        requires
            self.wf(),
        ensures
            self@.consistent(),
    {
    }

    /// The number of fields that the message was sized for when made.
    pub closed spec fn spec_capacity(&self) -> nat {
        list_min_capacity(self.field_order)
    }

    pub fn new() -> (r: Self)
        ensures
            r.wf(),
            r@ == MessageView::empty(),
            r.spec_capacity() == 0,
    {
        let r = FixMessage { fields: table_new(), field_order: tags_new() };
        assert(r@.fields =~= Map::empty());
        r
    }

    /// An empty message with room for `capacity` fields; the bound keeps
    /// the storage for them within what can be allocated.
    pub fn with_capacity(capacity: usize) -> (r: Self)
        requires
            capacity <= isize::MAX / 256,
        ensures
            r.wf(),
            r@ == MessageView::empty(),
            r.spec_capacity() == capacity,
    {
        let r = FixMessage {
            fields: table_with_capacity(capacity),
            field_order: tags_with_capacity(capacity),
        };
        assert(r@.fields =~= Map::empty());
        r
    }

    /// Appends the field's tag to the order and makes the field the one
    /// found under its tag.
    pub fn add_field(&mut self, field: FixField)
        requires
            old(self).wf(),
            old(self)@.order.len() < isize::MAX / 8,
        ensures
            final(self).wf(),
            final(self)@ == old(self)@.add(field@.0, field@.1),
            final(self).spec_capacity() == old(self).spec_capacity(),
    {
        let tag = field.tag();
        let ghost value = field@.1;
        let _ = field.value();
        tags_push(&mut self.field_order, tag);
        table_insert(&mut self.fields, tag, field);
        assert(self@.fields =~= old(self)@.fields.insert(tag, value));
        assert forall|t: u32| self@.fields.contains_key(t) <==> self@.order.contains(t) by {
            if t != tag && self@.order.contains(t) {
                let k = choose|k: int| 0 <= k < self@.order.len() && self@.order[k] == t;
                assert(old(self)@.order[k] == t);
            }
            if old(self)@.order.contains(t) {
                let k = choose|k: int| 0 <= k < old(self)@.order.len() && old(self)@.order[k] == t;
                assert(self@.order[k] == t);
            }
            if t == tag {
                assert(self@.order[self@.order.len() - 1] == t);
            }
        }
    }

    pub fn get_field(&self, tag: u32) -> (r: Option<&FixField>)
        requires
            self.wf(),
        ensures
            match r {
                Some(f) => self@.fields.contains_key(tag) && f@ == (tag, self@.fields[tag]),
                None => !self@.fields.contains_key(tag),
            },
    {
        table_get(&self.fields, tag)
    }

    /// A capacity for the output buffer: the sizes of the begin-string field
    /// and of every entry of the order but the begin-string and body-length
    /// ones (repeats included), plus room for the body-length field with up
    /// to ten digits and for the checksum field; capped at `isize::MAX`.
    fn calculate_message_size(&self) -> (r: Result<usize, FixError>)
        requires
            self.wf(),
        ensures
            !self@.fields.contains_key(8) ==> r == Err::<usize, FixError>(
                FixError::MissingField(8),
            ),
            self@.fields.contains_key(8) ==> r == Ok::<usize, FixError>(
                capped(size_estimate(self@)) as usize,
            ),
            self@.fields.contains_key(8) && self@.fields.contains_key(35) && decimal(
                body_wire(self@).len(),
            ).len() <= 10 ==> size_estimate(self@) >= wire(self@).len(),
    {
        let ghost m = self@;
        let mut size: usize = match self.get_field(BEGIN_STRING_TAG) {
            Some(f) => add_capped(0, f.encoded_len()),
            None => return Err(FixError::MissingField(BEGIN_STRING_TAG)),
        };
        // "9=", at most ten digits, the delimiter
        size = add_capped(size, 13);
        let tags = self.field_tags();
        let mut i: usize = 0;
        proof {
            assert(m.order.subrange(0, 0) =~= Seq::<u32>::empty());
        }
        while i < tags.len()
            invariant
                self.wf(),
                m == self@,
                tags@ == m.order,
                m.fields.contains_key(8),
                0 <= i <= tags@.len(),
                size as nat == capped(
                    field_wire(8, m.fields[8]).len() + 13 + order_size(
                        m.order.subrange(0, i as int),
                        m.fields,
                    ),
                ),
            decreases tags@.len() - i,
        {
            let tag = tags[i];
            proof {
                assert(m.order.subrange(0, i + 1).drop_last() =~= m.order.subrange(0, i as int));
            }
            if tag != BEGIN_STRING_TAG && tag != BODY_LENGTH_TAG {
                proof {
                    assert(m.order[i as int] == tag);
                    assert(m.order.contains(tag));
                }
                match self.get_field(tag) {
                    Some(f) => size = add_capped(size, f.encoded_len()),
                    None => return Err(FixError::MissingField(tag)),
                }
            }
            i = i + 1;
        }
        proof {
            assert(m.order.subrange(0, m.order.len() as int) =~= m.order);
            lemma_order_size(m.order, m.fields);
            if m.fields.contains_key(35) {
                assert(m.order.contains(35));
                reveal_with_fuel(decimal, 2);
                assert(field_wire(10, three_digits(0)).len() == 7);
                assert(wire(m).len() == field_wire(8, m.fields[8]).len() + field_wire(
                    9,
                    decimal(body_wire(m).len()),
                ).len() + body_wire(m).len() + 7);
            }
        }
        // "10=", three digits, the delimiter
        Ok(add_capped(size, 7))
    }

    /// Encodes the message: the begin-string field; the body-length field;
    /// the body, which is the message-type field and then every other field
    /// in insertion order (the framing fields are left out: the begin-string
    /// field stands first, body length and checksum are computed); last the
    /// checksum field.
    pub fn encode(&self) -> (r: Result<BytesMut, FixError>)
        requires
            self.wf(),
            encodable(self@),
        ensures
            match encode_spec(self@) {
                Ok(w) => r is Ok && buffer_bytes(r->Ok_0) == w,
                Err(e) => r == Err::<BytesMut, FixError>(e),
            },
    {
        let estimated_size = match self.calculate_message_size() {
            Ok(s) => s,
            Err(e) => return Err(e),
        };
        let begin = match self.get_field(BEGIN_STRING_TAG) {
            Some(f) => f,
            None => return Err(FixError::MissingField(BEGIN_STRING_TAG)),
        };
        let msg_type = match self.get_field(MSG_TYPE_TAG) {
            Some(f) => f,
            None => return Err(FixError::MissingField(MSG_TYPE_TAG)),
        };
        let ghost m = self@;
        proof {
            lemma_body_prefix_len(m.order, m.fields, 0);
            assert(m.order.subrange(0, 0) =~= Seq::<u32>::empty());
        }
        let mut body = buffer_with_capacity(estimated_size);
        msg_type.encode(&mut body);
        let tags = self.field_tags();
        let mut i: usize = 0;
        while i < tags.len()
            invariant
                self.wf(),
                m == self@,
                tags@ == m.order,
                0 <= i <= tags@.len(),
                m.fields.contains_key(8),
                m.fields.contains_key(35),
                wire(m).len() <= isize::MAX,
                buffer_bytes(body) == field_wire(35, m.fields[35]) + body_fields_wire(
                    m.order.subrange(0, i as int),
                    m.fields,
                ),
            decreases tags@.len() - i,
        {
            let tag = tags[i];
            proof {
                assert(m.order.subrange(0, i + 1).drop_last() =~= m.order.subrange(0, i as int));
                lemma_body_prefix_len(m.order, m.fields, i + 1);
            }
            if tag != BEGIN_STRING_TAG && tag != BODY_LENGTH_TAG && tag != MSG_TYPE_TAG && tag
                != CHECKSUM_TAG {
                proof {
                    assert(m.order[i as int] == tag);
                    assert(m.order.contains(tag));
                }
                match self.get_field(tag) {
                    Some(f) => f.encode(&mut body),
                    None => return Err(FixError::MissingField(tag)),
                }
            }
            i = i + 1;
        }
        proof {
            assert(m.order.subrange(0, m.order.len() as int) =~= m.order);
        }
        let body_bytes = buffer_as_slice(&body);
        let body_length = body_bytes.len();
        let mut buf = buffer_with_capacity(estimated_size);
        begin.encode(&mut buf);
        buffer_put_u8(&mut buf, 57);
        buffer_put_u8(&mut buf, EQUALS);
        let digits = decimal_text(body_length as u64);
        buffer_put_slice(&mut buf, digits.as_slice());
        buffer_put_u8(&mut buf, SOH);
        buffer_put_slice(&mut buf, body_bytes);
        let ghost pre = buffer_bytes(buf);
        proof {
            assert(pre =~= head_wire(m) + body_wire(m));
            reveal_with_fuel(decimal, 2);
            assert(decimal(10) =~= seq![49u8, 48u8]);
            assert(wire(m).len() == pre.len() + 7);
        }
        let sum = checksum(buffer_as_slice(&buf));
        buffer_put_u8(&mut buf, 49);
        buffer_put_u8(&mut buf, ZERO);
        buffer_put_u8(&mut buf, EQUALS);
        let sum_digits = three_digit_text(sum);
        buffer_put_slice(&mut buf, sum_digits.as_slice());
        buffer_put_u8(&mut buf, SOH);
        proof {
            assert(buffer_bytes(buf) =~= wire(m));
        }
        Ok(buf)
    }

    /// Reads a field span (the bytes before a delimiter): the tag is the text
    /// before the first `=`, the value all that follows it.
    fn split_field(span: &[u8]) -> (r: Option<FixField>)
        ensures
            match span_field(span@) {
                Some((t, v)) => r is Some && r->0@ == (t, v),
                None => r is None,
            },
            r is Some ==> span@.len() >= 2,
    {
        let equals_pos = match find_first(EQUALS, span) {
            Some(q) => q,
            None => return None,
        };
        proof {
            lemma_first_of(span@, EQUALS);
            assert(first_of(span@, EQUALS) == Some(equals_pos as nat));
            assert(equals_pos < span@.len());
        }
        let tag = match parse_u32(&span[0..equals_pos]) {
            Some(t) => t,
            None => return None,
        };
        let end = span.len();
        Some(FixField::from_slice(tag, &span[equals_pos + 1..end]))
    }

    /// Reads the field that starts at `start_pos` into `message`; its tag
    /// must be `expected_tag`. Returns the position after its delimiter.
    fn extract_field(
        data: &[u8],
        start_pos: usize,
        expected_tag: u32,
        message: &mut FixMessage,
    ) -> (r: Result<usize, FixError>)
        requires
            old(message).wf(),
            start_pos <= data@.len(),
            old(message)@.order.len() < isize::MAX / 8,
        ensures
            match expect_field(data@, start_pos as nat, expected_tag, old(message)@) {
                Some((m, n)) => {
                    &&& r == Ok::<usize, FixError>(n as usize)
                    &&& final(message).wf()
                    &&& final(message)@ == m
                    &&& start_pos + 3 <= n <= data@.len()
                    &&& data@[n - 1] == SOH
                },
                None => {
                    &&& r == Err::<usize, FixError>(FixError::InvalidFormat)
                    &&& *final(message) == *old(message)
                },
            },
    {
        let rest = &data[start_pos..data.len()];
        let field_end = match find_first(SOH, rest) {
            Some(e) => e,
            None => return Err(FixError::InvalidFormat),
        };
        proof {
            lemma_first_of(rest@, SOH);
            assert(data@[start_pos + field_end] == rest@[field_end as int]);
        }
        let field = match Self::split_field(&data[start_pos..start_pos + field_end]) {
            Some(f) => f,
            None => return Err(FixError::InvalidFormat),
        };
        if field.tag() != expected_tag {
            return Err(FixError::InvalidFormat);
        }
        message.add_field(field);
        Ok(start_pos + field_end + 1)
    }

    /// Decodes one complete message. The three header fields must come first,
    /// in order; every field after them is read in turn; the checksum field
    /// must be present and must match the sum, modulo 256, of all bytes but
    /// the last seven.
    pub fn decode(data: &[u8]) -> (r: Result<FixMessage, FixError>)
        requires
            data@.len() <= isize::MAX / 4,
        ensures
            match decode_spec(data@) {
                Ok(m) => r is Ok && r->Ok_0.wf() && r->Ok_0@ == m,
                Err(e) => r == Err::<FixMessage, FixError>(e),
            },
    {
        let mut message = FixMessage::new();
        let mut pos: usize = 0;
        pos = match Self::extract_field(data, pos, BEGIN_STRING_TAG, &mut message) {
            Ok(p) => p,
            Err(e) => return Err(e),
        };
        pos = match Self::extract_field(data, pos, BODY_LENGTH_TAG, &mut message) {
            Ok(p) => p,
            Err(e) => return Err(e),
        };
        pos = match Self::extract_field(data, pos, MSG_TYPE_TAG, &mut message) {
            Ok(p) => p,
            Err(e) => return Err(e),
        };
        let ghost head_end = pos as nat;
        let ghost head = message@;
        assert(header_spec(data@) == Some((head, head_end)));
        while pos < data.len()
            invariant
                message.wf(),
                9 <= pos <= data@.len(),
                message@.order.len() * 3 <= pos,
                data@.len() <= isize::MAX / 4,
                header_spec(data@) == Some((head, head_end)),
                scan_fields(data@, pos as nat, message@) == scan_fields(data@, head_end, head),
            decreases data@.len() - pos,
        {
            let rest = &data[pos..data.len()];
            assert(rest@ == data@.subrange(pos as int, data@.len() as int));
            let field_end = match find_first(SOH, rest) {
                Some(e) => e,
                None => {
                    assert(scan_fields(data@, pos as nat, message@) is None);
                    return Err(FixError::InvalidFormat);
                },
            };
            proof {
                lemma_first_of(rest@, SOH);
            }
            let span = &data[pos..pos + field_end];
            assert(span@ == data@.subrange(pos as int, pos + field_end));
            let field = match Self::split_field(span) {
                Some(f) => f,
                None => {
                    assert(scan_fields(data@, pos as nat, message@) is None);
                    return Err(FixError::InvalidFormat);
                },
            };
            message.add_field(field);
            pos = pos + field_end + 1;
        }
        let checksum_field = match message.get_field(CHECKSUM_TAG) {
            Some(f) => f,
            None => return Err(FixError::MissingField(CHECKSUM_TAG)),
        };
        let calculated = checksum(&data[0..data.len() - 7]);
        let received = match parse_u32(checksum_field.value()) {
            Some(v) => v,
            None => return Err(FixError::InvalidFormat),
        };
        if calculated != received {
            return Err(FixError::InvalidChecksum);
        }
        Ok(message)
    }

    /// The number of distinct tags held.
    pub fn len(&self) -> (r: usize)
        requires
            self.wf(),
        ensures
            r == self@.fields.dom().len(),
    {
        assert(self@.fields.dom() =~= table_entries(self.fields).dom());
        table_len(&self.fields)
    }

    pub fn is_empty(&self) -> (r: bool)
        requires
            self.wf(),
        ensures
            r == (self@.fields.dom().len() == 0),
    {
        self.len() == 0
    }

    /// The tags in insertion order.
    pub fn field_tags(&self) -> (r: &[u32])
        ensures
            r@ == self@.order,
    {
        tags_as_slice(&self.field_order)
    }

    /// How many tags the order holds before it must grow.
    pub fn capacity(&self) -> (r: usize)
        ensures
            r >= self@.order.len(),
            r >= self.spec_capacity(),
    {
        tags_capacity(&self.field_order)
    }
}

} // verus!
