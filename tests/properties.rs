use fix_engine::decimal::{parse_u32, three_digit_text};
use fix_engine::field::SOH;
use fix_engine::scan::{checksum, find_first};
use fix_engine::{FixError, FixField, FixMessage, Tag};

fn header(msg: &mut FixMessage) {
    msg.add_field(FixField::new(8, b"FIX.4.2".to_vec()));
    msg.add_field(FixField::new(9, b"100".to_vec()));
    msg.add_field(FixField::new(35, b"D".to_vec()));
}

fn body_length_and_span(encoded: &[u8]) -> (usize, usize) {
    let start = encoded.iter().position(|&b| b == SOH).unwrap() + 1;
    assert_eq!(&encoded[start..start + 2], b"9=");
    let end = encoded[start..].iter().position(|&b| b == SOH).unwrap() + start;
    let declared: usize = String::from_utf8_lossy(&encoded[start + 2..end]).parse().unwrap();
    let actual = encoded.len() - 7 - (end + 1);
    (declared, actual)
}

#[test]
fn example_new_order_round_trip_and_corruption() {
    let mut msg = FixMessage::new();
    header(&mut msg);
    let encoded = msg.encode().unwrap();
    let decoded = FixMessage::decode(&encoded).unwrap();
    assert_eq!(decoded.get_field(35).unwrap().value(), b"D");
    assert!(decoded.get_field(10).is_some());

    let mut corrupted = encoded.to_vec();
    corrupted[5] ^= 0x20;
    assert!(matches!(FixMessage::decode(&corrupted), Err(FixError::InvalidChecksum)));
}

#[test]
fn exact_wire_form() {
    let mut msg = FixMessage::new();
    header(&mut msg);
    let encoded = msg.encode().unwrap();
    let body = b"35=D\x01";
    let mut expected = b"8=FIX.4.2\x019=5\x01".to_vec();
    expected.extend_from_slice(body);
    let sum: u32 = expected.iter().map(|&b| b as u32).sum::<u32>() % 256;
    expected.extend_from_slice(format!("10={:03}\x01", sum).as_bytes());
    assert_eq!(&encoded[..], &expected[..]);
    assert_eq!(sum, 181);
}

#[test]
fn checksum_with_high_bytes() {
    for extra in [0usize, 1, 7, 50, 300] {
        let mut msg = FixMessage::new();
        header(&mut msg);
        let value: Vec<u8> = (0..extra).map(|i| 0x80 + (i % 0x70) as u8).collect();
        msg.add_field(FixField::new(58, value.clone()));
        let encoded = msg.encode().unwrap();
        let n = encoded.len();
        let sum: u32 = encoded[..n - 7].iter().map(|&b| b as u32).sum::<u32>() % 256;
        assert_eq!(&encoded[n - 7..], format!("10={:03}\x01", sum).as_bytes());
        let decoded = FixMessage::decode(&encoded).unwrap();
        assert_eq!(decoded.get_field(58).unwrap().value(), &value[..]);
    }
}

#[test]
fn body_length_for_several_sizes() {
    for size in [0usize, 1, 100, 10_000, 20_000] {
        let mut msg = FixMessage::new();
        header(&mut msg);
        msg.add_field(FixField::new(58, vec![b'a'; size]));
        let encoded = msg.encode().unwrap();
        let (declared, actual) = body_length_and_span(&encoded);
        assert_eq!(declared, actual);
        assert_eq!(actual, 5 + 4 + size);
    }
}

#[test]
fn every_single_byte_change_is_detected() {
    let mut msg = FixMessage::new();
    header(&mut msg);
    msg.add_field(FixField::new(49, b"SENDER".to_vec()));
    let encoded = msg.encode().unwrap();
    let n = encoded.len();
    for i in 0..n - 7 {
        for x in [0u8, 1, b'=', b'0', b'9', b'X', 0xff] {
            if x == encoded[i] {
                continue;
            }
            let mut corrupted = encoded.to_vec();
            corrupted[i] = x;
            assert!(FixMessage::decode(&corrupted).is_err(), "byte {} set to {}", i, x);
        }
    }
    // a change inside a value, to a byte that is not the delimiter
    let pos = encoded.windows(6).position(|w| w == b"SENDER").unwrap();
    let mut corrupted = encoded.to_vec();
    corrupted[pos] = b'Z';
    assert!(matches!(FixMessage::decode(&corrupted), Err(FixError::InvalidChecksum)));
}

#[test]
fn missing_message_type() {
    let mut msg = FixMessage::new();
    msg.add_field(FixField::new(8, b"FIX.4.2".to_vec()));
    msg.add_field(FixField::new(9, b"100".to_vec()));
    assert!(matches!(msg.encode(), Err(FixError::MissingField(35))));
}

#[test]
fn missing_both_names_begin_string() {
    let msg = FixMessage::new();
    assert!(matches!(msg.encode(), Err(FixError::MissingField(8))));
}

#[test]
fn decode_rejects_wrong_header_order() {
    let data = b"9=5\x018=FIX.4.2\x0135=D\x0110=000\x01";
    assert!(matches!(FixMessage::decode(data), Err(FixError::InvalidFormat)));
}

#[test]
fn decode_rejects_non_numeric_tag() {
    let data = b"8=FIX.4.2\x019=5\x0135=D\x01x1=2\x0110=000\x01";
    assert!(matches!(FixMessage::decode(data), Err(FixError::InvalidFormat)));
    let data = b"8=FIX.4.2\x019=5\x0135=D\x01+1=2\x0110=000\x01";
    assert!(matches!(FixMessage::decode(data), Err(FixError::InvalidFormat)));
}

#[test]
fn decode_rejects_field_without_separator() {
    let data = b"8=FIX.4.2\x019=5\x0135=D\x01abc\x0110=000\x01";
    assert!(matches!(FixMessage::decode(data), Err(FixError::InvalidFormat)));
}

#[test]
fn decode_rejects_unterminated_field() {
    let data = b"8=FIX.4.2\x019=5\x0135=D\x0110=000";
    assert!(matches!(FixMessage::decode(data), Err(FixError::InvalidFormat)));
}

#[test]
fn decode_requires_checksum_field() {
    let data = b"8=FIX.4.2\x019=5\x0135=D\x0149=SENDER\x01";
    assert!(matches!(FixMessage::decode(data), Err(FixError::MissingField(10))));
}

#[test]
fn decode_rejects_non_numeric_checksum() {
    let data = b"8=FIX.4.2\x019=5\x0135=D\x0110=1a3\x01";
    assert!(matches!(FixMessage::decode(data), Err(FixError::InvalidFormat)));
}

#[test]
fn decode_does_not_check_declared_body_length() {
    let mut msg = FixMessage::new();
    header(&mut msg);
    let encoded = msg.encode().unwrap();
    let decoded = FixMessage::decode(&encoded).unwrap();
    assert_eq!(decoded.get_field(9).unwrap().value(), b"5");
}

#[test]
fn duplicate_tag_overwrites_and_repeats_in_order() {
    let mut msg = FixMessage::new();
    header(&mut msg);
    msg.add_field(FixField::new(49, b"FIRST".to_vec()));
    msg.add_field(FixField::new(49, b"SECOND".to_vec()));
    assert_eq!(msg.len(), 4);
    assert_eq!(msg.field_tags(), &[8, 9, 35, 49, 49]);
    assert_eq!(msg.get_field(49).unwrap().value(), b"SECOND");
    let encoded = msg.encode().unwrap();
    let text = String::from_utf8_lossy(&encoded).to_string();
    assert_eq!(text.matches("49=SECOND\x01").count(), 2);
    assert!(!text.contains("FIRST"));
}

#[test]
fn caller_supplied_framing_values_are_replaced() {
    let mut msg = FixMessage::new();
    header(&mut msg);
    msg.add_field(FixField::new(10, b"999".to_vec()));
    let encoded = msg.encode().unwrap();
    let text = String::from_utf8_lossy(&encoded).to_string();
    assert!(!text.contains("999"));
    assert!(!text.contains("9=100"));
    assert_eq!(text.matches("10=").count(), 1);
}

#[test]
fn field_encoding_and_length() {
    let field = FixField::new(1000, b"abc".to_vec());
    assert_eq!(field.tag(), 1000);
    assert_eq!(field.value(), b"abc");
    assert_eq!(field.encoded_len(), 9);
    let mut msg = FixMessage::new();
    header(&mut msg);
    msg.add_field(field);
    let encoded = msg.encode().unwrap();
    assert!(encoded.windows(9).any(|w| w == b"1000=abc\x01"));
    let empty = FixField::from_slice(7, b"");
    assert_eq!(empty.encoded_len(), 3);
    assert_eq!(FixField::new(4294967295, vec![]).encoded_len(), 12);
}

#[test]
fn tag_values() {
    assert_eq!(Tag::BeginString.value(), 8);
    assert_eq!(Tag::BodyLength.value(), 9);
    assert_eq!(Tag::CheckSum.value(), 10);
    assert_eq!(Tag::MsgType.value(), 35);
    assert_eq!(Tag::MsgSeqNum.value(), 34);
    assert_eq!(Tag::SenderCompID.value(), 49);
    assert_eq!(Tag::TargetCompID.value(), 56);
    assert_eq!(Tag::SendingTime.value(), 52);
}

#[test]
fn decimal_reading_and_writing() {
    assert_eq!(parse_u32(b"0"), Some(0));
    assert_eq!(parse_u32(b"007"), Some(7));
    assert_eq!(parse_u32(b"4294967295"), Some(4294967295));
    assert_eq!(parse_u32(b"4294967296"), None);
    assert_eq!(parse_u32(b"99999999999999999999"), None);
    assert_eq!(parse_u32(b""), None);
    assert_eq!(parse_u32(b"+5"), None);
    assert_eq!(parse_u32(b"5 "), None);
    assert_eq!(three_digit_text(7), b"007".to_vec());
    assert_eq!(three_digit_text(255), b"255".to_vec());
}

#[test]
fn searching_and_summing() {
    assert_eq!(find_first(1, b"ab\x01c\x01"), Some(2));
    assert_eq!(find_first(b'=', b"abc"), None);
    assert_eq!(checksum(b"\xff\x02"), 1);
    assert_eq!(checksum(b""), 0);
}

#[test]
fn empty_message() {
    let msg = FixMessage::with_capacity(0);
    assert!(msg.is_empty());
    assert_eq!(msg.len(), 0);
    assert!(msg.field_tags().is_empty());
}

#[test]
fn cloned_message_encodes_the_same() {
    let mut msg = FixMessage::with_capacity(4);
    header(&mut msg);
    msg.add_field(FixField::new(49, b"SENDER".to_vec()));
    let copy = msg.clone();
    assert_eq!(&copy.encode().unwrap()[..], &msg.encode().unwrap()[..]);
    let field = copy.get_field(49).unwrap().clone();
    assert_eq!(&field, msg.get_field(49).unwrap());
    assert!(format!("{:?}", field).contains("49"));
}

#[test]
fn message_type_value_change_is_a_checksum_error() {
    let mut msg = FixMessage::new();
    header(&mut msg);
    msg.add_field(FixField::new(49, b"SENDER".to_vec()));
    let encoded = msg.encode().unwrap();
    let pos = encoded.windows(5).position(|w| w == b"\x0135=D").unwrap() + 4;
    let mut corrupted = encoded.to_vec();
    corrupted[pos] = b'=';
    assert!(matches!(FixMessage::decode(&corrupted), Err(FixError::InvalidChecksum)));
}

#[test]
fn body_length_digit_change_is_a_checksum_error() {
    let mut msg = FixMessage::new();
    header(&mut msg);
    let encoded = msg.encode().unwrap();
    let pos = encoded.windows(4).position(|w| w == b"\x019=5").unwrap() + 3;
    let mut corrupted = encoded.to_vec();
    corrupted[pos] = b'7';
    assert!(matches!(FixMessage::decode(&corrupted), Err(FixError::InvalidChecksum)));
}

#[test]
fn presized_message_is_empty_with_room() {
    let msg = FixMessage::with_capacity(100);
    assert!(msg.is_empty());
    assert!(msg.field_tags().is_empty());
    assert!(msg.capacity() >= 100);
    assert!(FixMessage::with_capacity(3).capacity() >= 3);
}
