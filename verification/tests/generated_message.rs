use vibes::message::{Message, MessageDecodeError};

/// Ensures that the `Message` type can be serialized and deserialized
/// without losing information.
#[test]
fn message_round_trip_serialization() {
    let payload = vec![0_u8, 1, 2, 3, 4, 5];
    let message = Message {
        uid: "123e4567-e89b-12d3-a456-426614174000".to_string(),
        data: payload.clone(),
        data_length: payload.len() as u64,
    };

    let encoded = message.encode_to_vec();
    let decoded = Message::decode(encoded.as_slice()).expect("Protobuf decoding must succeed");

    assert_eq!(decoded.uid, message.uid);
    assert_eq!(decoded.data, payload);
    assert_eq!(decoded.data_length as usize, decoded.data.len());
}

#[test]
fn encoding_has_exact_wire_bytes() {
    let message = Message { uid: "a".to_string(), data: vec![1], data_length: 300 };
    assert_eq!(
        message.encode_to_vec(),
        vec![0x0a, 0x01, 0x61, 0x12, 0x01, 0x01, 0x18, 0xac, 0x02]
    );
}

#[test]
fn default_fields_are_left_out() {
    let empty = Message { uid: String::new(), data: Vec::new(), data_length: 0 };
    assert!(empty.encode_to_vec().is_empty());
    let only_length = Message { uid: String::new(), data: Vec::new(), data_length: 1 };
    assert_eq!(only_length.encode_to_vec(), vec![0x18, 0x01]);
}

#[test]
fn multibyte_uid_round_trips() {
    let message = Message { uid: "héllo ✓".to_string(), data: vec![0xff; 200], data_length: u64::MAX };
    let encoded = message.encode_to_vec();
    // key, two-byte length (200), then the bytes
    assert_eq!(&encoded[0..2], &[0x0a, 0x0a]);
    let decoded = Message::decode(&encoded).expect("round trip");
    assert_eq!(decoded.uid, "héllo ✓");
    assert_eq!(decoded.data, vec![0xff; 200]);
    assert_eq!(decoded.data_length, u64::MAX);
}

#[test]
fn decoding_empty_input_gives_default_message() {
    let decoded = Message::decode(&[]).expect("empty input is the default message");
    assert_eq!(decoded.uid, "");
    assert!(decoded.data.is_empty());
    assert_eq!(decoded.data_length, 0);
}

#[test]
fn unknown_fields_are_skipped() {
    // field 4 varint 5; field 5 fixed32; field 6 group with a nested varint;
    // field 7 fixed64; field 8 length-delimited; then uid = "x"
    let bytes = [
        0x20, 0x05, 0x2d, 1, 2, 3, 4, 0x33, 0x08, 0x01, 0x34, 0x39, 1, 2, 3, 4, 5, 6, 7, 8, 0x42,
        0x02, 0xaa, 0xbb, 0x0a, 0x01, b'x',
    ];
    let decoded = Message::decode(&bytes).expect("unknown fields are skipped");
    assert_eq!(decoded.uid, "x");
    assert!(decoded.data.is_empty());
    assert_eq!(decoded.data_length, 0);
}

#[test]
fn last_occurrence_of_a_field_wins() {
    let bytes = [0x0a, 0x01, b'a', 0x18, 0x07, 0x0a, 0x02, b'b', b'c', 0x18, 0x09];
    let decoded = Message::decode(&bytes).expect("repeated fields decode");
    assert_eq!(decoded.uid, "bc");
    assert_eq!(decoded.data_length, 9);
}

#[test]
fn malformed_inputs_are_refused() {
    // field number 0
    assert_eq!(Message::decode(&[0x00, 0x01]).unwrap_err(), MessageDecodeError);
    // wire type 6
    assert!(Message::decode(&[0x0e]).is_err());
    // uid sent as a varint
    assert!(Message::decode(&[0x08, 0x01]).is_err());
    // data_length sent length-delimited
    assert!(Message::decode(&[0x1a, 0x00]).is_err());
    // length beyond the end of the input
    assert!(Message::decode(&[0x12, 0x05, 1, 2]).is_err());
    // uid that is not UTF-8
    assert!(Message::decode(&[0x0a, 0x01, 0xff]).is_err());
    // key varint cut short
    assert!(Message::decode(&[0x80]).is_err());
    // value varint longer than ten bytes
    assert!(Message::decode(&[0x18, 0xff, 0xff, 0xff, 0xff, 0xff, 0xff, 0xff, 0xff, 0xff, 0xff, 0x01]).is_err());
    // tenth varint byte above 1 overflows 64 bits
    assert!(Message::decode(&[0x18, 0xff, 0xff, 0xff, 0xff, 0xff, 0xff, 0xff, 0xff, 0xff, 0x02]).is_err());
    // end-group marker with no group
    assert!(Message::decode(&[0x24]).is_err());
    // fixed32 cut short
    assert!(Message::decode(&[0x2d, 1, 2]).is_err());
}

#[test]
fn largest_varint_decodes() {
    let bytes = [0x18, 0xff, 0xff, 0xff, 0xff, 0xff, 0xff, 0xff, 0xff, 0xff, 0x01];
    assert_eq!(Message::decode(&bytes).expect("u64::MAX").data_length, u64::MAX);
}
