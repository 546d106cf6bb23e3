//! Properties that relate encoding and decoding, proved over the models that
//! the contracts of `FixMessage::encode` and `FixMessage::decode` use.
use crate::decimal::{
    decimal, digits_value, is_digit, lemma_decimal, lemma_parse_decimal, lemma_three_digits,
    three_digits,
};
use crate::error::FixError;
use crate::field::{field_wire, EQUALS, SOH};
use crate::message::{
    body_fields_wire, body_wire, decode_spec, encode_spec, framing_tag, head_wire,
    header_spec, next_field, scan_fields, span_field, wire, MessageView,
};
use crate::scan::{byte_sum, checksum_of, first_of, lacks, lemma_first_of, lemma_first_of_at};
use vstd::prelude::*;

verus! {

/// The message that results from reading the non-framing fields of `order`,
/// with their values in `f`, into `m0`.
pub open spec fn add_body_fields(m0: MessageView, order: Seq<u32>, f: Map<u32, Seq<u8>>) -> MessageView
    decreases order.len(),
{
    if order.len() == 0 {
        m0
    } else {
        let prev = add_body_fields(m0, order.drop_last(), f);
        let t = order.last();
        if framing_tag(t) {
            prev
        } else {
            prev.add(t, f[t])
        }
    }
}

/// No value of the message holds the delimiter.
pub open spec fn values_lack_delimiter(m: MessageView) -> bool {
    forall|t: u32| m.fields.contains_key(t) ==> lacks(#[trigger] m.fields[t], SOH)
}

/// Where the wire form of a field starts at `pos`, decoding reads exactly it.
proof fn lemma_field_at(data: Seq<u8>, pos: nat, t: u32, v: Seq<u8>)
    requires
        pos + field_wire(t, v).len() <= data.len(),
        data.subrange(pos as int, (pos + field_wire(t, v).len()) as int) == field_wire(t, v),
        lacks(v, SOH),
    ensures
        first_of(data.subrange(pos as int, data.len() as int), SOH) == Some(
            (field_wire(t, v).len() - 1) as nat,
        ),
        span_field(data.subrange(pos as int, (pos + field_wire(t, v).len() - 1) as int)) == Some((t, v)),
        next_field(data, pos) == Some((t, v, pos + field_wire(t, v).len())),
{
    let fw = field_wire(t, v);
    let d = decimal(t as nat);
    lemma_decimal(t as nat);
    let k = fw.len() - 1;
    let rest = data.subrange(pos as int, data.len() as int);
    assert forall|j: int| 0 <= j < k implies rest[j] != SOH by {
        assert(rest[j] == fw[j]);
        if j < d.len() {
            assert(fw[j] == d[j]);
            assert(is_digit(d[j]));
        } else if j == d.len() {
            assert(fw[j] == EQUALS);
        } else {
            assert(fw[j] == v[j - d.len() - 1]);
        }
    }
    assert(rest[k] == fw[k]);
    lemma_first_of_at(rest, SOH, k);
    let span = data.subrange(pos as int, (pos + k) as int);
    assert(span =~= d + seq![EQUALS] + v);
    assert forall|j: int| 0 <= j < d.len() implies span[j] != EQUALS by {
        assert(span[j] == d[j]);
        assert(is_digit(d[j]));
    }
    assert(span[d.len() as int] == EQUALS);
    lemma_first_of_at(span, EQUALS, d.len() as int);
    assert(span.subrange(0, d.len() as int) =~= d);
    lemma_parse_decimal(t);
    assert(span.subrange((d.len() + 1) as int, span.len() as int) =~= v);
}

/// Decoding reads the body fields back one by one.
proof fn lemma_scan_body(
    data: Seq<u8>,
    pos: nat,
    order: Seq<u32>,
    f: Map<u32, Seq<u8>>,
    m0: MessageView,
)
    requires
        pos + body_fields_wire(order, f).len() <= data.len(),
        data.subrange(pos as int, (pos + body_fields_wire(order, f).len()) as int) == body_fields_wire(
            order,
            f,
        ),
        forall|i: int|
            0 <= i < order.len() && !framing_tag(order[i]) ==> lacks(#[trigger] f[order[i]], SOH),
    ensures
        scan_fields(data, pos, m0) == scan_fields(
            data,
            pos + body_fields_wire(order, f).len(),
            add_body_fields(m0, order, f),
        ),
    decreases order.len(),
{
    if order.len() > 0 {
        let o2 = order.drop_last();
        let b = body_fields_wire(order, f);
        let b2 = body_fields_wire(o2, f);
        let t = order.last();
        assert forall|i: int| 0 <= i < o2.len() && !framing_tag(o2[i]) implies lacks(
            #[trigger] f[o2[i]],
            SOH,
        ) by {
            assert(o2[i] == order[i]);
        }
        assert(data.subrange(pos as int, (pos + b2.len()) as int) =~= b.subrange(0, b2.len() as int));
        if framing_tag(t) {
            assert(b == b2);
        } else {
            assert(b2 =~= b.subrange(0, b2.len() as int));
        }
        lemma_scan_body(data, pos, o2, f, m0);
        if !framing_tag(t) {
            let after_length = pos + b2.len();
            let fw = field_wire(t, f[t]);
            assert(b == b2 + fw);
            assert forall|j: int| 0 <= j < fw.len() implies #[trigger] data[after_length + j] == fw[j] by {
                assert(data.subrange(pos as int, (pos + b.len()) as int)[b2.len() + j] == b[b2.len()
                    + j]);
            }
            assert(after_length + fw.len() == pos + b.len());
            assert forall|j: int| 0 <= j < fw.len() implies #[trigger] data.subrange(
                after_length as int,
                (after_length + fw.len()) as int,
            )[j] == fw[j] by {
                assert(data[after_length + j] == fw[j]);
            }
            assert(data.subrange(after_length as int, (after_length + fw.len()) as int) =~= fw);
            assert(lacks(f[order[order.len() - 1]], SOH));
            lemma_field_at(data, after_length, t, f[t]);
        }
    }
}

/// Which values reading the body fields leaves in the message.
proof fn lemma_body_fields_values(m0: MessageView, order: Seq<u32>, f: Map<u32, Seq<u8>>, t: u32)
    ensures
        add_body_fields(m0, order, f).fields.contains_key(t) <==> (m0.fields.contains_key(t) || (
        order.contains(t) && !framing_tag(t))),
        order.contains(t) && !framing_tag(t) ==> add_body_fields(m0, order, f).fields[t] == f[t],
        !(order.contains(t) && !framing_tag(t)) ==> add_body_fields(m0, order, f).fields[t]
            == m0.fields[t],
    decreases order.len(),
{
    if order.len() > 0 {
        let o2 = order.drop_last();
        lemma_body_fields_values(m0, o2, f, t);
        if o2.contains(t) {
            let k = choose|k: int| 0 <= k < o2.len() && o2[k] == t;
            assert(order[k] == t);
        }
        if order.contains(t) && order.last() != t {
            let k = choose|k: int| 0 <= k < order.len() && order[k] == t;
            assert(o2[k] == t);
        }
        if order.last() == t {
            assert(order[order.len() - 1] == t);
        }
    }
}

/// The body fields end with the delimiter, if there are any.
proof fn lemma_body_fields_end(order: Seq<u32>, f: Map<u32, Seq<u8>>)
    ensures
        body_fields_wire(order, f).len() > 0 ==> body_fields_wire(order, f).last() == SOH,
    decreases order.len(),
{
    if order.len() > 0 {
        lemma_body_fields_end(order.drop_last(), f);
    }
}

/// Where a buffer ends in a delimiter and a checksum field, every scan that
/// starts at a field boundary before that field and succeeds finds that
/// field's value under the checksum tag.
proof fn lemma_scan_last(data: Seq<u8>, pos: nat, m0: MessageView, digits: Seq<u8>)
    requires
        digits.len() == 3,
        lacks(digits, SOH),
        data.len() >= 8,
        data.subrange((data.len() - 7) as int, data.len() as int) == field_wire(10, digits),
        data[data.len() - 8] == SOH,
        pos <= data.len() - 7,
        scan_fields(data, pos, m0) is Some,
    ensures
        scan_fields(data, pos, m0)->0.fields.contains_key(10),
        scan_fields(data, pos, m0)->0.fields[10] == digits,
    decreases data.len() - pos,
{
    reveal_with_fuel(decimal, 2);
    assert(field_wire(10, digits).len() == 7);
    let rest = data.subrange(pos as int, data.len() as int);
    if pos == data.len() - 7 {
        lemma_field_at(data, pos, 10, digits);
        let d = m0.add(10, digits);
        assert(scan_fields(data, data.len(), d) == Some(d));
        assert(scan_fields(data, pos, m0) == Some(d));
    } else {
        lemma_first_of(rest, SOH);
        let e = first_of(rest, SOH)->0;
        assert(rest[data.len() - 8 - pos] == SOH);
        assert(e <= data.len() - 8 - pos);
        let (t, v) = span_field(data.subrange(pos as int, (pos + e) as int))->0;
        assert(scan_fields(data, pos, m0) == scan_fields(data, pos + e + 1, m0.add(t, v)));
        lemma_scan_last(data, pos + e + 1, m0.add(t, v), digits);
    }
}

/// Where the field at `pos` is read, it ends with a delimiter right before
/// the returned position.
proof fn lemma_next_field_end(data: Seq<u8>, pos: nat)
    requires
        pos <= data.len(),
        next_field(data, pos) is Some,
    ensures
        pos < (next_field(data, pos)->0).2 <= data.len(),
        data[(next_field(data, pos)->0).2 - 1] == SOH,
{
    let rest = data.subrange(pos as int, data.len() as int);
    lemma_first_of(rest, SOH);
    let e = first_of(rest, SOH)->0;
    assert(rest[e as int] == data[(pos + e) as int]);
}

proof fn lemma_byte_sum_update(s: Seq<u8>, i: int, x: u8)
    requires
        0 <= i < s.len(),
    ensures
        byte_sum(s.update(i, x)) + s[i] == byte_sum(s) + x,
    decreases s.len(),
{
    let u = s.update(i, x);
    if i < s.len() - 1 {
        assert(u.drop_last() =~= s.drop_last().update(i, x));
        lemma_byte_sum_update(s.drop_last(), i, x);
    } else {
        assert(u.drop_last() =~= s.drop_last());
    }
}

/// The encoded message ends with the checksum field: tag 10 and exactly
/// three digits that give the sum, modulo 256, of every byte before it.
pub proof fn lemma_checksum_field(m: MessageView)
    requires
        m.fields.contains_key(8),
        m.fields.contains_key(35),
    ensures
        encode_spec(m) == Ok::<Seq<u8>, FixError>(wire(m)),
        wire(m).len() >= 7,
        wire(m).subrange((wire(m).len() - 7) as int, wire(m).len() as int) == seq![49u8, 48u8, EQUALS]
            + three_digits(checksum_of(wire(m).subrange(0, (wire(m).len() - 7) as int))) + seq![SOH],
        digits_value(three_digits(checksum_of(wire(m).subrange(0, (wire(m).len() - 7) as int))))
            == checksum_of(wire(m).subrange(0, (wire(m).len() - 7) as int)),
{
    reveal_with_fuel(decimal, 2);
    let pre = head_wire(m) + body_wire(m);
    let w = wire(m);
    lemma_three_digits(checksum_of(pre));
    assert(w.subrange(0, (w.len() - 7) as int) =~= pre);
    assert(w.subrange((w.len() - 7) as int, w.len() as int) =~= seq![49u8, 48u8, EQUALS] + three_digits(
        checksum_of(pre),
    ) + seq![SOH]);
}

/// The body-length field carries, in decimal, the number of bytes between
/// its own delimiter and the checksum field.
pub proof fn lemma_body_length(m: MessageView)
    requires
        m.fields.contains_key(8),
        m.fields.contains_key(35),
    ensures
        ({
            let w = wire(m);
            let start = field_wire(8, m.fields[8]).len();
            let digits = decimal(body_wire(m).len());
            let body_start = start + 2 + digits.len() + 1;
            &&& w.subrange(start as int, (start + 2) as int) == seq![57u8, EQUALS]
            &&& w.subrange((start + 2) as int, (start + 2 + digits.len()) as int) == digits
            &&& w[(start + 2 + digits.len()) as int] == SOH
            &&& digits_value(digits) == w.len() - 7 - body_start
            &&& w.subrange((w.len() - 7) as int, (w.len() - 4) as int) == seq![49u8, 48u8, EQUALS]
        }),
{
    reveal_with_fuel(decimal, 2);
    let w = wire(m);
    let start = field_wire(8, m.fields[8]).len();
    let digits = decimal(body_wire(m).len());
    lemma_decimal(body_wire(m).len());
    assert(w.subrange(start as int, (start + 2) as int) =~= seq![57u8, EQUALS]);
    assert(w.subrange((start + 2) as int, (start + 2 + digits.len()) as int) =~= digits);
    assert(w.subrange((w.len() - 7) as int, (w.len() - 4) as int) =~= seq![49u8, 48u8, EQUALS]);
}

/// Encoding fails on a message without a begin-string field, and on one
/// that has it but no message-type field, naming the missing tag.
pub proof fn lemma_missing_fields(m: MessageView)
    ensures
        !m.fields.contains_key(8) ==> encode_spec(m) == Err::<Seq<u8>, FixError>(
            FixError::MissingField(8),
        ),
        m.fields.contains_key(8) && !m.fields.contains_key(35) ==> encode_spec(m) == Err::<
            Seq<u8>,
            FixError,
        >(FixError::MissingField(35)),
{
}

/// The message that decoding an encoded message yields.
pub open spec fn decoded_view(m: MessageView) -> MessageView {
    let pre = head_wire(m) + body_wire(m);
    let head = MessageView::empty().add(8, m.fields[8]).add(9, decimal(body_wire(m).len())).add(
        35,
        m.fields[35],
    );
    add_body_fields(head, m.order, m.fields).add(10, three_digits(checksum_of(pre)))
}

#[verifier::rlimit(50)]
proof fn lemma_decode_wire(m: MessageView)
    requires
        m.consistent(),
        m.fields.contains_key(8),
        m.fields.contains_key(35),
        values_lack_delimiter(m),
    ensures
        decode_spec(wire(m)) == Ok::<MessageView, FixError>(decoded_view(m)),
{
    reveal_with_fuel(decimal, 2);
    let f = m.fields;
    let w = wire(m);
    let f8 = field_wire(8, f[8]);
    let len_text = decimal(body_wire(m).len());
    let f9 = field_wire(9, len_text);
    let f35 = field_wire(35, f[35]);
    let b = body_fields_wire(m.order, f);
    let pre = head_wire(m) + body_wire(m);
    let cs = checksum_of(pre);
    let digits = three_digits(cs);
    let c = field_wire(10, digits);
    assert(w =~= f8 + f9 + f35 + b + c);
    assert(c.len() == 7);
    lemma_decimal(body_wire(m).len());
    lemma_three_digits(cs);
    assert(lacks(len_text, SOH)) by {
        assert forall|j: int| 0 <= j < len_text.len() implies len_text[j] != SOH by {
            assert(is_digit(len_text[j]));
        }
    }
    assert(lacks(digits, SOH)) by {
        assert forall|j: int| 0 <= j < digits.len() implies digits[j] != SOH by {
            assert(is_digit(digits[j]));
        }
    }
    let after_begin = f8.len();
    let after_length = after_begin + f9.len();
    let body_start = after_length + f35.len();
    let sum_start = body_start + b.len();
    assert(w.subrange(0, after_begin as int) =~= f8);
    assert(w.subrange(after_begin as int, after_length as int) =~= f9);
    assert(w.subrange(after_length as int, body_start as int) =~= f35);
    assert(w.subrange(body_start as int, sum_start as int) =~= b);
    assert(w.subrange(sum_start as int, w.len() as int) =~= c);
    lemma_field_at(w, 0, 8, f[8]);
    let h1 = MessageView::empty().add(8, f[8]);
    lemma_field_at(w, after_begin, 9, len_text);
    let h2 = h1.add(9, len_text);
    lemma_field_at(w, after_length, 35, f[35]);
    let h3 = h2.add(35, f[35]);
    assert(header_spec(w) == Some((h3, body_start)));
    assert forall|i: int| 0 <= i < m.order.len() && !framing_tag(m.order[i]) implies lacks(
        #[trigger] f[m.order[i]],
        SOH,
    ) by {
        assert(m.order.contains(m.order[i]));
    }
    lemma_scan_body(w, body_start, m.order, f, h3);
    let hb = add_body_fields(h3, m.order, f);
    lemma_field_at(w, sum_start, 10, digits);
    let d = hb.add(10, digits);
    assert(scan_fields(w, w.len(), d) == Some(d));
    assert(scan_fields(w, body_start, h3) == Some(d));
    assert(w.subrange(0, (w.len() - 7) as int) =~= pre);
    assert(d == decoded_view(m));
}

/// Decoding an encoded message succeeds, and every field that was inserted
/// (with the value last inserted under its tag) reads back unchanged; only
/// the body-length and checksum fields carry the computed values.
pub proof fn lemma_round_trip(m: MessageView)
    requires
        m.consistent(),
        m.fields.contains_key(8),
        m.fields.contains_key(35),
        values_lack_delimiter(m),
    ensures
        encode_spec(m) == Ok::<Seq<u8>, FixError>(wire(m)),
        decode_spec(wire(m)) == Ok::<MessageView, FixError>(decoded_view(m)),
        forall|t: u32|
            #![trigger decoded_view(m).fields.contains_key(t)]
            #![trigger decoded_view(m).fields[t]]
            m.fields.contains_key(t) && t != 9 && t != 10 ==> {
                &&& decoded_view(m).fields.contains_key(t)
                &&& decoded_view(m).fields[t] == m.fields[t]
            },
        decoded_view(m).fields[9] == decimal(body_wire(m).len()),
{
    lemma_decode_wire(m);
    let pre = head_wire(m) + body_wire(m);
    let head = MessageView::empty().add(8, m.fields[8]).add(9, decimal(body_wire(m).len())).add(
        35,
        m.fields[35],
    );
    assert forall|t: u32|
        #![trigger decoded_view(m).fields.contains_key(t)]
        #![trigger decoded_view(m).fields[t]]
        m.fields.contains_key(t) && t != 9 && t != 10 implies {
        &&& decoded_view(m).fields.contains_key(t)
        &&& decoded_view(m).fields[t] == m.fields[t]
    } by {
        lemma_body_fields_values(head, m.order, m.fields, t);
        let hb = add_body_fields(head, m.order, m.fields);
        assert(decoded_view(m).fields == hb.fields.insert(10, three_digits(checksum_of(pre))));
        if t == 8 || t == 35 {
            assert(head.fields.contains_key(t));
            assert(head.fields[t] == m.fields[t]);
        } else {
            assert(m.order.contains(t));
        }
    }
    lemma_body_fields_values(head, m.order, m.fields, 9);
}

/// Where the body has fields, it ends with the last field of the order that
/// is not a framing field.
proof fn lemma_body_split(order: Seq<u32>, f: Map<u32, Seq<u8>>) -> (k: int)
    requires
        body_fields_wire(order, f).len() > 0,
    ensures
        0 <= k < order.len(),
        !framing_tag(order[k]),
        body_fields_wire(order, f) == body_fields_wire(order.subrange(0, k), f) + field_wire(
            order[k],
            f[order[k]],
        ),
    decreases order.len(),
{
    let o2 = order.drop_last();
    assert(order.subrange(0, order.len() - 1) =~= o2);
    if !framing_tag(order.last()) {
        (order.len() - 1) as int
    } else {
        let k = lemma_body_split(o2, f);
        assert(o2.subrange(0, k) =~= order.subrange(0, k));
        assert(o2[k] == order[k]);
        k
    }
}

/// Replacing the delimiter before the checksum field merges that field into
/// the one before it, so decoding finds no checksum field.
/// Replacing the delimiter before the checksum field merges that field into
/// the one before it, so decoding finds no checksum field.
proof fn lemma_corrupt_last_delimiter(m: MessageView, x: u8)
    requires
        m.consistent(),
        m.fields.contains_key(8),
        m.fields.contains_key(35),
        values_lack_delimiter(m),
        x != SOH,
    ensures
        decode_spec(wire(m).update(wire(m).len() - 8, x)) == Err::<MessageView, FixError>(
            FixError::MissingField(10),
        ),
{
    if body_fields_wire(m.order, m.fields).len() == 0 {
        lemma_corrupt_last_in_header(m, x);
    } else {
        lemma_corrupt_last_in_body(m, x);
    }
}

#[verifier::rlimit(100)]
proof fn lemma_corrupt_last_in_header(m: MessageView, x: u8)
    requires
        body_fields_wire(m.order, m.fields).len() == 0,
        m.consistent(),
        m.fields.contains_key(8),
        m.fields.contains_key(35),
        values_lack_delimiter(m),
        x != SOH,
    ensures
        decode_spec(wire(m).update(wire(m).len() - 8, x)) == Err::<MessageView, FixError>(
            FixError::MissingField(10),
        ),
{
    reveal_with_fuel(decimal, 2);
    let f = m.fields;
    let w = wire(m);
    let n = w.len();
    let w2 = w.update(n - 8, x);
    let f8 = field_wire(8, f[8]);
    let len_text = decimal(body_wire(m).len());
    let f9 = field_wire(9, len_text);
    let f35 = field_wire(35, f[35]);
    let b = body_fields_wire(m.order, f);
    let pre = head_wire(m) + body_wire(m);
    let cs = checksum_of(pre);
    let digits = three_digits(cs);
    let c = field_wire(10, digits);
    assert(w =~= f8 + f9 + f35 + b + c);
    assert(c.len() == 7);
    lemma_decimal(body_wire(m).len());
    lemma_three_digits(cs);
    let tail = seq![x, 49u8, 48u8, EQUALS] + digits;
    assert(lacks(len_text, SOH)) by {
        assert forall|j: int| 0 <= j < len_text.len() implies len_text[j] != SOH by {
            assert(is_digit(len_text[j]));
        }
    }
    assert(lacks(tail, SOH)) by {
        assert forall|j: int| 0 <= j < tail.len() implies tail[j] != SOH by {
            if j >= 4 {
                assert(tail[j] == digits[j - 4]);
                assert(is_digit(digits[j - 4]));
            }
        }
    }
    let after_begin = f8.len();
    let after_length = after_begin + f9.len();
    let body_start = after_length + f35.len();
    assert(w2.subrange(0, after_begin as int) =~= f8);
    assert(w2.subrange(after_begin as int, after_length as int) =~= f9);
    lemma_field_at(w2, 0, 8, f[8]);
    let h1 = MessageView::empty().add(8, f[8]);
    lemma_field_at(w2, after_begin, 9, len_text);
    let h2 = h1.add(9, len_text);
    let v = f[35] + tail;
    assert(lacks(v, SOH));
    assert(w2.subrange(after_length as int, n as int) =~= field_wire(35, v));
    lemma_field_at(w2, after_length, 35, v);
    let h3 = h2.add(35, v);
    assert(header_spec(w2) == Some((h3, n)));
    assert(scan_fields(w2, n, h3) == Some(h3));
}

#[verifier::rlimit(100)]
proof fn lemma_corrupt_last_in_body(m: MessageView, x: u8)
    requires
        body_fields_wire(m.order, m.fields).len() > 0,
        m.consistent(),
        m.fields.contains_key(8),
        m.fields.contains_key(35),
        values_lack_delimiter(m),
        x != SOH,
    ensures
        decode_spec(wire(m).update(wire(m).len() - 8, x)) == Err::<MessageView, FixError>(
            FixError::MissingField(10),
        ),
{
    reveal_with_fuel(decimal, 2);
    let f = m.fields;
    let w = wire(m);
    let n = w.len();
    let w2 = w.update(n - 8, x);
    let f8 = field_wire(8, f[8]);
    let len_text = decimal(body_wire(m).len());
    let f9 = field_wire(9, len_text);
    let f35 = field_wire(35, f[35]);
    let b = body_fields_wire(m.order, f);
    let pre = head_wire(m) + body_wire(m);
    let cs = checksum_of(pre);
    let digits = three_digits(cs);
    let c = field_wire(10, digits);
    assert(w =~= f8 + f9 + f35 + b + c);
    assert(c.len() == 7);
    lemma_decimal(body_wire(m).len());
    lemma_three_digits(cs);
    let tail = seq![x, 49u8, 48u8, EQUALS] + digits;
    assert(lacks(len_text, SOH)) by {
        assert forall|j: int| 0 <= j < len_text.len() implies len_text[j] != SOH by {
            assert(is_digit(len_text[j]));
        }
    }
    assert(lacks(tail, SOH)) by {
        assert forall|j: int| 0 <= j < tail.len() implies tail[j] != SOH by {
            if j >= 4 {
                assert(tail[j] == digits[j - 4]);
                assert(is_digit(digits[j - 4]));
            }
        }
    }
    let after_begin = f8.len();
    let after_length = after_begin + f9.len();
    let body_start = after_length + f35.len();
    assert(w2.subrange(0, after_begin as int) =~= f8);
    assert(w2.subrange(after_begin as int, after_length as int) =~= f9);
    lemma_field_at(w2, 0, 8, f[8]);
    let h1 = MessageView::empty().add(8, f[8]);
    lemma_field_at(w2, after_begin, 9, len_text);
    let h2 = h1.add(9, len_text);
    assert(w2.subrange(after_length as int, body_start as int) =~= f35);
    lemma_field_at(w2, after_length, 35, f[35]);
    let h3 = h2.add(35, f[35]);
    assert(header_spec(w2) == Some((h3, body_start)));
    let k = lemma_body_split(m.order, f);
    let ok = m.order.subrange(0, k);
    let bk = body_fields_wire(ok, f);
    let t = m.order[k];
    assert(m.order.contains(t));
    let q = body_start + bk.len();
    assert(w2.subrange(body_start as int, q as int) =~= bk);
    assert forall|i: int| 0 <= i < ok.len() && !framing_tag(ok[i]) implies lacks(
        #[trigger] f[ok[i]],
        SOH,
    ) by {
        assert(ok[i] == m.order[i]);
        assert(m.order.contains(m.order[i]));
    }
    lemma_scan_body(w2, body_start, ok, f, h3);
    let hk = add_body_fields(h3, ok, f);
    let v = f[t] + tail;
    assert(lacks(v, SOH));
    assert(w2.subrange(q as int, n as int) =~= field_wire(t, v));
    lemma_field_at(w2, q, t, v);
    let d = hk.add(t, v);
    assert(scan_fields(w2, n, d) == Some(d));
    assert(scan_fields(w2, q, hk) == Some(d));
    lemma_body_fields_values(h3, ok, f, 10);
}

/// Decoding a buffer laid out as an encoded message: a begin-string field,
/// a body-length field, a message-type field, body fields and a checksum
/// field with three digits. The fields are all read; the result then rests
/// on the checksum alone.
#[verifier::rlimit(100)]
proof fn lemma_decode_parts(
    w: Seq<u8>,
    begin: Seq<u8>,
    len_text: Seq<u8>,
    msg_type: Seq<u8>,
    order: Seq<u32>,
    f: Map<u32, Seq<u8>>,
    c: nat,
)
    requires
        c < 256,
        lacks(begin, SOH),
        lacks(len_text, SOH),
        lacks(msg_type, SOH),
        forall|i: int|
            0 <= i < order.len() && !framing_tag(order[i]) ==> lacks(#[trigger] f[order[i]], SOH),
        w == field_wire(8, begin) + field_wire(9, len_text) + field_wire(35, msg_type)
            + body_fields_wire(order, f) + field_wire(10, three_digits(c)),
    ensures
        c == checksum_of(w.subrange(0, w.len() - 7)) ==> decode_spec(w) is Ok,
        c != checksum_of(w.subrange(0, w.len() - 7)) ==> decode_spec(w) == Err::<
            MessageView,
            FixError,
        >(FixError::InvalidChecksum),
{
    reveal_with_fuel(decimal, 2);
    let digits = three_digits(c);
    lemma_three_digits(c);
    assert(lacks(digits, SOH)) by {
        assert forall|j: int| 0 <= j < digits.len() implies digits[j] != SOH by {
            assert(is_digit(digits[j]));
        }
    }
    let f8 = field_wire(8, begin);
    let f9 = field_wire(9, len_text);
    let f35 = field_wire(35, msg_type);
    let b = body_fields_wire(order, f);
    let cw = field_wire(10, digits);
    assert(cw.len() == 7);
    let after_begin = f8.len();
    let after_length = after_begin + f9.len();
    let body_start = after_length + f35.len();
    let sum_start = body_start + b.len();
    assert(w.subrange(0, after_begin as int) =~= f8);
    assert(w.subrange(after_begin as int, after_length as int) =~= f9);
    assert(w.subrange(after_length as int, body_start as int) =~= f35);
    assert(w.subrange(body_start as int, sum_start as int) =~= b);
    assert(w.subrange(sum_start as int, w.len() as int) =~= cw);
    lemma_field_at(w, 0, 8, begin);
    let h1 = MessageView::empty().add(8, begin);
    lemma_field_at(w, after_begin, 9, len_text);
    let h2 = h1.add(9, len_text);
    lemma_field_at(w, after_length, 35, msg_type);
    let h3 = h2.add(35, msg_type);
    assert(header_spec(w) == Some((h3, body_start)));
    lemma_scan_body(w, body_start, order, f, h3);
    let hb = add_body_fields(h3, order, f);
    lemma_field_at(w, sum_start, 10, digits);
    let d = hb.add(10, digits);
    assert(scan_fields(w, w.len(), d) == Some(d));
    assert(scan_fields(w, body_start, h3) == Some(d));
}

/// Changing one byte of the begin-string, body-length or message-type value
/// of an encoded message, to any byte but the delimiter, makes decoding fail
/// with `InvalidChecksum`.
/// An encoded message in its five parts; changing one byte before the
/// checksum field changes the checksum of the bytes before that field.
#[verifier::rlimit(100)]
proof fn lemma_changed_byte(m: MessageView, i: int, x: u8)
    requires
        m.fields.contains_key(8),
        m.fields.contains_key(35),
        0 <= i < wire(m).len() - 7,
        x != wire(m)[i],
    ensures
        ({
            let f = m.fields;
            let w = wire(m);
            let pre = head_wire(m) + body_wire(m);
            &&& w == field_wire(8, f[8]) + field_wire(9, decimal(body_wire(m).len())) + field_wire(
                35,
                f[35],
            ) + body_fields_wire(m.order, f) + field_wire(10, three_digits(checksum_of(pre)))
            &&& w.len() == pre.len() + 7
            &&& checksum_of(w.update(i, x).subrange(0, w.len() - 7)) != checksum_of(pre)
        }),
{
    reveal_with_fuel(decimal, 2);
    let f = m.fields;
    let w = wire(m);
    let w2 = w.update(i, x);
    let pre = head_wire(m) + body_wire(m);
    let cw = field_wire(10, three_digits(checksum_of(pre)));
    assert(w =~= field_wire(8, f[8]) + field_wire(9, decimal(body_wire(m).len())) + field_wire(
        35,
        f[35],
    ) + body_fields_wire(m.order, f) + cw);
    assert(cw.len() == 7);
    assert(w.subrange(0, w.len() - 7) =~= pre);
    let s2 = w2.subrange(0, w2.len() - 7);
    assert(s2 =~= pre.update(i, x));
    lemma_byte_sum_update(pre, i, x);
    assert(byte_sum(s2) % 256 != byte_sum(pre) % 256) by (nonlinear_arith)
        requires
            byte_sum(s2) + pre[i] == byte_sum(pre) + x,
            x != pre[i],
            0 <= x < 256,
            0 <= pre[i] < 256,
    ;
}

#[verifier::rlimit(100)]
pub proof fn lemma_header_value_corruption(m: MessageView, i: int, x: u8)
    requires
        m.consistent(),
        m.fields.contains_key(8),
        m.fields.contains_key(35),
        values_lack_delimiter(m),
        x != SOH,
        x != wire(m)[i],
        ({
            let after_begin = field_wire(8, m.fields[8]).len();
            let after_length = after_begin + field_wire(9, decimal(body_wire(m).len())).len();
            ||| 2 <= i < after_begin - 1
            ||| after_begin + 2 <= i < after_length - 1
            ||| after_length + 3 <= i < after_length + field_wire(35, m.fields[35]).len() - 1
        }),
    ensures
        decode_spec(wire(m).update(i, x)) == Err::<MessageView, FixError>(
            FixError::InvalidChecksum,
        ),
{
    reveal_with_fuel(decimal, 2);
    let f = m.fields;
    let w = wire(m);
    let w2 = w.update(i, x);
    let len_text = decimal(body_wire(m).len());
    let f8 = field_wire(8, f[8]);
    let f9 = field_wire(9, len_text);
    let f35 = field_wire(35, f[35]);
    let b = body_fields_wire(m.order, f);
    let pre = head_wire(m) + body_wire(m);
    let cs = checksum_of(pre);
    let cw = field_wire(10, three_digits(cs));
    lemma_changed_byte(m, i, x);
    lemma_decimal(body_wire(m).len());
    assert(lacks(len_text, SOH)) by {
        assert forall|j: int| 0 <= j < len_text.len() implies len_text[j] != SOH by {
            assert(is_digit(len_text[j]));
        }
    }
    assert forall|k: int| 0 <= k < m.order.len() && !framing_tag(m.order[k]) implies lacks(
        #[trigger] f[m.order[k]],
        SOH,
    ) by {
        assert(m.order.contains(m.order[k]));
    }
    lemma_three_digits(cs);
    if i < f8.len() {
        let j = i - 2;
        let v = f[8].update(j, x);
        assert(lacks(v, SOH));
        assert(w2 =~= field_wire(8, v) + f9 + f35 + b + cw);
        lemma_decode_parts(w2, v, len_text, f[35], m.order, f, cs);
    } else if i < f8.len() + f9.len() {
        let j = i - (f8.len() + 2);
        let v = len_text.update(j, x);
        assert(lacks(v, SOH));
        assert(w2 =~= f8 + field_wire(9, v) + f35 + b + cw);
        lemma_decode_parts(w2, f[8], v, f[35], m.order, f, cs);
    } else {
        let j = i - (f8.len() + f9.len() + 3);
        let v = f[35].update(j, x);
        assert(lacks(v, SOH));
        reveal_with_fuel(decimal, 3);
        assert(decimal(35).len() == 2);
        assert(w2 =~= f8 + f9 + field_wire(35, v) + b + cw);
        lemma_decode_parts(w2, f[8], len_text, v, m.order, f, cs);
    }
}

proof fn lemma_body_append(o1: Seq<u32>, o2: Seq<u32>, f: Map<u32, Seq<u8>>)
    ensures
        body_fields_wire(o1 + o2, f) == body_fields_wire(o1, f) + body_fields_wire(o2, f),
    decreases o2.len(),
{
    if o2.len() == 0 {
        assert(o1 + o2 =~= o1);
        assert(body_fields_wire(o1, f) + body_fields_wire(o2, f) =~= body_fields_wire(o1, f));
    } else {
        lemma_body_append(o1, o2.drop_last(), f);
        assert((o1 + o2).drop_last() =~= o1 + o2.drop_last());
        assert((o1 + o2).last() == o2.last());
        let t = o2.last();
        if !framing_tag(t) {
            assert(body_fields_wire(o1, f) + body_fields_wire(o2.drop_last(), f) + field_wire(
                t,
                f[t],
            ) =~= body_fields_wire(o1, f) + (body_fields_wire(o2.drop_last(), f) + field_wire(
                t,
                f[t],
            )));
        }
    }
}

/// Decoding a buffer laid out as an encoded message whose body has one field
/// (tag `t`, value `v`) between the fields of `o1` and those of `o2`.
#[verifier::rlimit(100)]
proof fn lemma_decode_parts_mid(
    w: Seq<u8>,
    begin: Seq<u8>,
    len_text: Seq<u8>,
    msg_type: Seq<u8>,
    o1: Seq<u32>,
    t: u32,
    v: Seq<u8>,
    o2: Seq<u32>,
    f: Map<u32, Seq<u8>>,
    c: nat,
)
    requires
        c < 256,
        lacks(begin, SOH),
        lacks(len_text, SOH),
        lacks(msg_type, SOH),
        lacks(v, SOH),
        forall|i: int|
            0 <= i < o1.len() && !framing_tag(o1[i]) ==> lacks(#[trigger] f[o1[i]], SOH),
        forall|i: int|
            0 <= i < o2.len() && !framing_tag(o2[i]) ==> lacks(#[trigger] f[o2[i]], SOH),
        w == field_wire(8, begin) + field_wire(9, len_text) + field_wire(35, msg_type)
            + body_fields_wire(o1, f) + field_wire(t, v) + body_fields_wire(o2, f) + field_wire(
            10,
            three_digits(c),
        ),
    ensures
        c != checksum_of(w.subrange(0, w.len() - 7)) ==> decode_spec(w) == Err::<
            MessageView,
            FixError,
        >(FixError::InvalidChecksum),
{
    reveal_with_fuel(decimal, 2);
    let digits = three_digits(c);
    lemma_three_digits(c);
    assert(lacks(digits, SOH)) by {
        assert forall|j: int| 0 <= j < digits.len() implies digits[j] != SOH by {
            assert(is_digit(digits[j]));
        }
    }
    let f8 = field_wire(8, begin);
    let f9 = field_wire(9, len_text);
    let f35 = field_wire(35, msg_type);
    let b1 = body_fields_wire(o1, f);
    let ft = field_wire(t, v);
    let b2 = body_fields_wire(o2, f);
    let cw = field_wire(10, digits);
    assert(cw.len() == 7);
    let after_begin = f8.len();
    let after_length = after_begin + f9.len();
    let body_start = after_length + f35.len();
    let mid = body_start + b1.len();
    let after_mid = mid + ft.len();
    let sum_start = after_mid + b2.len();
    assert(w.subrange(0, after_begin as int) =~= f8);
    assert(w.subrange(after_begin as int, after_length as int) =~= f9);
    assert(w.subrange(after_length as int, body_start as int) =~= f35);
    assert(w.subrange(body_start as int, mid as int) =~= b1);
    assert(w.subrange(mid as int, after_mid as int) =~= ft);
    assert(w.subrange(after_mid as int, sum_start as int) =~= b2);
    assert(w.subrange(sum_start as int, w.len() as int) =~= cw);
    lemma_field_at(w, 0, 8, begin);
    let h1 = MessageView::empty().add(8, begin);
    lemma_field_at(w, after_begin, 9, len_text);
    let h2 = h1.add(9, len_text);
    lemma_field_at(w, after_length, 35, msg_type);
    let h3 = h2.add(35, msg_type);
    assert(header_spec(w) == Some((h3, body_start)));
    lemma_scan_body(w, body_start, o1, f, h3);
    let g1 = add_body_fields(h3, o1, f);
    lemma_field_at(w, mid, t, v);
    let g2 = g1.add(t, v);
    assert(scan_fields(w, mid, g1) == scan_fields(w, after_mid, g2));
    lemma_scan_body(w, after_mid, o2, f, g2);
    let g3 = add_body_fields(g2, o2, f);
    lemma_field_at(w, sum_start, 10, digits);
    let d = g3.add(10, digits);
    assert(scan_fields(w, w.len(), d) == Some(d));
    assert(scan_fields(w, body_start, h3) == Some(d));
}

/// An encoded message split around the body field that entry `k` of the
/// order writes.
#[verifier::rlimit(100)]
proof fn lemma_wire_split_at(m: MessageView, k: int)
    requires
        m.fields.contains_key(8),
        m.fields.contains_key(35),
        0 <= k < m.order.len(),
        !framing_tag(m.order[k]),
    ensures
        ({
            let f = m.fields;
            let t = m.order[k];
            let pre = head_wire(m) + body_wire(m);
            &&& wire(m) == field_wire(8, f[8]) + field_wire(9, decimal(body_wire(m).len()))
                + field_wire(35, f[35]) + body_fields_wire(m.order.subrange(0, k), f) + field_wire(
                t,
                f[t],
            ) + body_fields_wire(m.order.subrange(k + 1, m.order.len() as int), f) + field_wire(
                10,
                three_digits(checksum_of(pre)),
            )
            &&& wire(m).len() == pre.len() + 7
            &&& wire(m).subrange(0, wire(m).len() - 7) == pre
        }),
{
    reveal_with_fuel(decimal, 2);
    let f = m.fields;
    let t = m.order[k];
    let o1 = m.order.subrange(0, k);
    let o2 = m.order.subrange(k + 1, m.order.len() as int);
    let w = wire(m);
    let len_text = decimal(body_wire(m).len());
    let f8 = field_wire(8, f[8]);
    let f9 = field_wire(9, len_text);
    let f35 = field_wire(35, f[35]);
    let b1 = body_fields_wire(o1, f);
    let b2 = body_fields_wire(o2, f);
    let ft = field_wire(t, f[t]);
    let pre = head_wire(m) + body_wire(m);
    let cs = checksum_of(pre);
    let cw = field_wire(10, three_digits(cs));
    assert(o1.push(t) + o2 =~= m.order);
    assert(o1.push(t).drop_last() =~= o1);
    lemma_body_append(o1.push(t), o2, f);
    assert(body_fields_wire(m.order, f) == b1 + ft + b2);
    assert(w =~= f8 + f9 + f35 + b1 + ft + b2 + cw);
    assert(cw.len() == 7);
    assert(w.subrange(0, w.len() - 7) =~= pre);
}

/// Changing one byte of the value of a body field of an encoded message
/// (the field that entry `k` of the order writes), to any byte but the
/// delimiter, makes decoding fail with `InvalidChecksum`.
#[verifier::rlimit(100)]
pub proof fn lemma_body_value_corruption(m: MessageView, k: int, j: int, x: u8)
    requires
        m.consistent(),
        m.fields.contains_key(8),
        m.fields.contains_key(35),
        values_lack_delimiter(m),
        0 <= k < m.order.len(),
        !framing_tag(m.order[k]),
        0 <= j < m.fields[m.order[k]].len(),
        x != SOH,
        x != m.fields[m.order[k]][j],
    ensures
        ({
            let t = m.order[k];
            let i = field_wire(8, m.fields[8]).len() + field_wire(
                9,
                decimal(body_wire(m).len()),
            ).len() + field_wire(35, m.fields[35]).len() + body_fields_wire(
                m.order.subrange(0, k),
                m.fields,
            ).len() + decimal(t as nat).len() + 1 + j;
            decode_spec(wire(m).update(i, x)) == Err::<MessageView, FixError>(
                FixError::InvalidChecksum,
            )
        }),
{
    reveal_with_fuel(decimal, 2);
    let f = m.fields;
    let t = m.order[k];
    let o1 = m.order.subrange(0, k);
    let o2 = m.order.subrange(k + 1, m.order.len() as int);
    let w = wire(m);
    let len_text = decimal(body_wire(m).len());
    let f8 = field_wire(8, f[8]);
    let f9 = field_wire(9, len_text);
    let f35 = field_wire(35, f[35]);
    let b1 = body_fields_wire(o1, f);
    let b2 = body_fields_wire(o2, f);
    let pre = head_wire(m) + body_wire(m);
    let cs = checksum_of(pre);
    let cw = field_wire(10, three_digits(cs));
    let i = f8.len() + f9.len() + f35.len() + b1.len() + decimal(t as nat).len() + 1 + j;
    lemma_wire_split_at(m, k);
    assert(cw.len() == 7);
    lemma_decimal(body_wire(m).len());
    assert(lacks(len_text, SOH)) by {
        assert forall|q: int| 0 <= q < len_text.len() implies len_text[q] != SOH by {
            assert(is_digit(len_text[q]));
        }
    }
    assert forall|q: int| 0 <= q < o1.len() && !framing_tag(o1[q]) implies lacks(
        #[trigger] f[o1[q]],
        SOH,
    ) by {
        assert(o1[q] == m.order[q]);
        assert(m.order.contains(m.order[q]));
    }
    assert forall|q: int| 0 <= q < o2.len() && !framing_tag(o2[q]) implies lacks(
        #[trigger] f[o2[q]],
        SOH,
    ) by {
        assert(o2[q] == m.order[k + 1 + q]);
        assert(m.order.contains(m.order[k + 1 + q]));
    }
    assert(m.order.contains(t));
    let v = f[t].update(j, x);
    assert(lacks(v, SOH));
    let w2 = w.update(i, x);
    assert(w[i] == f[t][j]);
    assert(w2 =~= f8 + f9 + f35 + b1 + field_wire(t, v) + b2 + cw);
    assert(w.subrange(0, w.len() - 7) =~= pre);
    let s2 = w2.subrange(0, w2.len() - 7);
    assert(s2 =~= pre.update(i, x));
    lemma_byte_sum_update(pre, i, x);
    assert(byte_sum(s2) % 256 != byte_sum(pre) % 256) by (nonlinear_arith)
        requires
            byte_sum(s2) + pre[i] == byte_sum(pre) + x,
            x != pre[i],
            0 <= x < 256,
            0 <= pre[i] < 256,
    ;
    lemma_three_digits(cs);
    lemma_decode_parts_mid(w2, f[8], len_text, f[35], o1, t, v, o2, f, cs);
}

/// Changing any one byte of an encoded message outside its checksum field
/// makes decoding fail.
pub proof fn lemma_corruption_detected(m: MessageView, i: int, x: u8)
    requires
        m.consistent(),
        m.fields.contains_key(8),
        m.fields.contains_key(35),
        values_lack_delimiter(m),
        0 <= i < wire(m).len() - 7,
        x != wire(m)[i],
    ensures
        decode_spec(wire(m).update(i, x)) is Err,
{
    if i == wire(m).len() - 8 {
        reveal_with_fuel(decimal, 2);
        lemma_body_fields_end(m.order, m.fields);
        let pre = head_wire(m) + body_wire(m);
        assert(wire(m).len() == pre.len() + 7);
        assert(pre.last() == SOH);
        assert(wire(m)[i] == pre.last());
        lemma_corrupt_last_delimiter(m, x);
    } else {
        lemma_corruption_before_last_delimiter(m, i, x);
    }
}

#[verifier::rlimit(100)]
proof fn lemma_corruption_before_last_delimiter(m: MessageView, i: int, x: u8)
    requires
        m.consistent(),
        m.fields.contains_key(8),
        m.fields.contains_key(35),
        values_lack_delimiter(m),
        0 <= i < wire(m).len() - 8,
        x != wire(m)[i],
    ensures
        decode_spec(wire(m).update(i, x)) is Err,
{
    reveal_with_fuel(decimal, 2);
    let w = wire(m);
    let w2 = w.update(i, x);
    let pre = head_wire(m) + body_wire(m);
    let cs = checksum_of(pre);
    let digits = three_digits(cs);
    lemma_three_digits(cs);
    assert(lacks(digits, SOH)) by {
        assert forall|j: int| 0 <= j < digits.len() implies digits[j] != SOH by {
            assert(is_digit(digits[j]));
        }
    }
    lemma_body_fields_end(m.order, m.fields);
    assert(w.len() == pre.len() + 7);
    assert(pre.last() == SOH);
    assert(w[w.len() - 8] == pre.last());
    assert(w2.subrange((w2.len() - 7) as int, w2.len() as int) =~= w.subrange((w.len() - 7) as int, w.len() as int));
    assert(w.subrange((w.len() - 7) as int, w.len() as int) =~= field_wire(10, digits));
    assert(w.subrange(0, (w.len() - 7) as int) =~= pre);
    let s2 = w2.subrange(0, (w2.len() - 7) as int);
    assert(s2 =~= pre.update(i, x));
    lemma_byte_sum_update(pre, i, x);
    if decode_spec(w2) is Ok {
        let (h, p) = header_spec(w2)->0;
        let d = scan_fields(w2, p, h)->0;
        let e1 = next_field(w2, 0)->0;
        let e2 = next_field(w2, e1.2)->0;
        lemma_next_field_end(w2, 0);
        lemma_next_field_end(w2, e1.2);
        lemma_next_field_end(w2, e2.2);
        if p > w2.len() - 7 {
            assert(w2[p - 1] == w.subrange((w.len() - 7) as int, w.len() as int)[p - 1 - (w.len() - 7)]);
            assert(p == w2.len());
            assert(d == h);
            assert(!h.fields.contains_key(10));
        } else {
            lemma_scan_last(w2, p, h, digits);
            assert(byte_sum(s2) % 256 != byte_sum(pre) % 256) by (nonlinear_arith)
                requires
                    byte_sum(s2) + pre[i] == byte_sum(pre) + x,
                    x != pre[i],
                    0 <= x < 256,
                    0 <= pre[i] < 256,
            ;
        }
    }
}

} // verus!
