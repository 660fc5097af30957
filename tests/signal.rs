use canutil::signal::{
    decode, payload_to_word, extract_field, signals_fit, ByteOrder, CanError, Catalog,
    DecodedSignal, MessageDescriptor, SignalDescriptor,
};

fn sig(name: &str, start_bit: u64, length: u64, byte_order: ByteOrder) -> SignalDescriptor {
    SignalDescriptor { name: name.to_string(), start_bit, length, byte_order }
}

fn msg(message_id: u32, name: &str, signals: Vec<SignalDescriptor>) -> MessageDescriptor {
    MessageDescriptor { message_id, name: name.to_string(), signals }
}

const PAYLOAD: [u8; 8] = [0x01, 0x02, 0x03, 0x04, 0x05, 0x06, 0x07, 0x08];

#[test]
fn payload_words() {
    assert_eq!(payload_to_word(&PAYLOAD, ByteOrder::LittleEndian), 0x0807060504030201);
    assert_eq!(payload_to_word(&PAYLOAD, ByteOrder::BigEndian), 0x0102030405060708);
}

#[test]
fn field_extraction() {
    assert_eq!(extract_field(0xABCD, 4, 8), 0xBC);
    assert_eq!(extract_field(u64::MAX, 0, 64), u64::MAX);
    assert_eq!(extract_field(u64::MAX, 64, 0), 0);
    assert_eq!(extract_field(u64::MAX, 63, 1), 1);
}

#[test]
fn decode_in_catalog_order() {
    let m = msg(
        0x100,
        "Status",
        vec![
            sig("a", 0, 8, ByteOrder::LittleEndian),
            sig("b", 8, 16, ByteOrder::LittleEndian),
            sig("c", 60, 4, ByteOrder::LittleEndian),
            sig("d", 0, 64, ByteOrder::LittleEndian),
            sig("e", 4, 12, ByteOrder::BigEndian),
        ],
    );
    let out = decode(&m, &PAYLOAD).unwrap();
    let expected = vec![
        DecodedSignal { name: "a".to_string(), raw: 0x01 },
        DecodedSignal { name: "b".to_string(), raw: 0x0302 },
        DecodedSignal { name: "c".to_string(), raw: 0x0 },
        DecodedSignal { name: "d".to_string(), raw: 0x0807060504030201 },
        DecodedSignal { name: "e".to_string(), raw: 0x070 },
    ];
    assert_eq!(out, expected);
}

#[test]
fn decode_is_deterministic() {
    let m = msg(7, "M", vec![sig("x", 3, 17, ByteOrder::BigEndian)]);
    let p = [0xde, 0xad, 0xbe, 0xef, 0x01, 0x23, 0x45, 0x67];
    assert_eq!(decode(&m, &p), decode(&m, &p));
}

#[test]
fn raw_value_round_trip() {
    let m = msg(7, "M", vec![sig("x", 20, 12, ByteOrder::LittleEndian)]);
    let p = [0x00, 0x00, 0x50, 0x2A, 0x00, 0x00, 0x00, 0x00];
    let out = decode(&m, &p).unwrap();
    assert_eq!(out[0].raw, 0x2A5);
}

#[test]
fn byte_order_changes_value() {
    let le = msg(1, "M", vec![sig("x", 0, 8, ByteOrder::LittleEndian)]);
    let be = msg(1, "M", vec![sig("x", 0, 8, ByteOrder::BigEndian)]);
    let a = decode(&le, &PAYLOAD).unwrap();
    let b = decode(&be, &PAYLOAD).unwrap();
    assert_eq!(a[0].raw, 0x01);
    assert_eq!(b[0].raw, 0x08);
    let same = [0x5a, 1, 2, 3, 4, 5, 6, 0x5a];
    assert_eq!(decode(&le, &same).unwrap()[0].raw, decode(&be, &same).unwrap()[0].raw);
}

#[test]
fn short_frame_is_rejected() {
    let m = msg(1, "M", vec![sig("x", 0, 8, ByteOrder::LittleEndian)]);
    assert_eq!(decode(&m, &PAYLOAD[..7]), Err(CanError::ShortFrame));
    assert_eq!(decode(&m, &[]), Err(CanError::ShortFrame));
    assert_eq!(decode(&m, &[0u8; 9]), Err(CanError::ShortFrame));
    assert!(decode(&m, &[0xffu8; 8]).is_ok());
    assert!(decode(&m, &[0u8; 8]).is_ok());
}

#[test]
fn decode_rejects_signal_past_payload() {
    let m = msg(1, "M", vec![sig("x", 0, 8, ByteOrder::LittleEndian), sig("y", 60, 5, ByteOrder::LittleEndian)]);
    assert_eq!(decode(&m, &PAYLOAD), Err(CanError::InvalidCatalog));
    assert!(!signals_fit(&m.signals));
}

#[test]
fn build_and_lookup() {
    let engine = msg(0x123, "Engine", vec![sig("rpm", 0, 16, ByteOrder::LittleEndian), sig("temp", 16, 8, ByteOrder::LittleEndian)]);
    let body = msg(0x8000_0456, "Body", vec![sig("door", 0, 1, ByteOrder::BigEndian)]);
    let catalog = Catalog::build(vec![engine.clone(), body.clone()]).unwrap();
    assert_eq!(catalog.lookup(0x123), Ok(&engine));
    assert_eq!(catalog.lookup(0x8000_0123), Ok(&engine));
    assert_eq!(catalog.lookup(0x456), Ok(&body));
    assert_eq!(catalog.lookup(0x124), Err(CanError::UnknownMessage));
    let names: Vec<&str> = catalog.lookup(0x123).unwrap().signals.iter().map(|s| s.name.as_str()).collect();
    assert_eq!(names, vec!["rpm", "temp"]);
}

#[test]
fn build_rejects_duplicate_keys() {
    let a = msg(0x123, "A", vec![]);
    let b = msg(0x8000_0123, "B", vec![]);
    assert_eq!(Catalog::build(vec![a, b]).err(), Some(CanError::InvalidCatalog));
}

#[test]
fn build_rejects_oversized_signal() {
    let ok = msg(1, "A", vec![sig("x", 56, 8, ByteOrder::LittleEndian)]);
    let bad = msg(2, "B", vec![sig("y", 57, 8, ByteOrder::LittleEndian)]);
    assert!(Catalog::build(vec![ok.clone()]).is_ok());
    assert_eq!(Catalog::build(vec![ok, bad]).err(), Some(CanError::InvalidCatalog));
    let huge = msg(3, "C", vec![sig("z", u64::MAX, 2, ByteOrder::LittleEndian)]);
    assert_eq!(Catalog::build(vec![huge]).err(), Some(CanError::InvalidCatalog));
    assert!(Catalog::build(vec![]).is_ok());
}

#[test]
fn decode_frame_through_catalog() {
    let engine = msg(0x123, "Engine", vec![sig("rpm", 0, 16, ByteOrder::LittleEndian)]);
    let catalog = Catalog::build(vec![engine]).unwrap();
    let out = catalog.decode_frame(0x8000_0123, &PAYLOAD).unwrap();
    assert_eq!(out, vec![DecodedSignal { name: "rpm".to_string(), raw: 0x0201 }]);
    assert_eq!(catalog.decode_frame(0x7ff, &PAYLOAD), Err(CanError::UnknownMessage));
    assert_eq!(catalog.decode_frame(0x123, &PAYLOAD[..7]), Err(CanError::ShortFrame));
}
