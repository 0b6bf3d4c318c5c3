use vibes::echo_server::{
    build_response_message, decode_ascii_payload, EchoError, MessageEchoService,
};
use vibes::message::Message;

#[test]
fn decode_ascii_payload_rejects_short_payloads() {
    let result = decode_ascii_payload(b"hi", 5);
    assert!(result.is_err());
}

#[test]
fn decode_ascii_payload_rejects_non_ascii() {
    let result = decode_ascii_payload(&[0xff, 0x00], 1);
    assert!(result.is_err());
}

#[test]
fn build_response_appends_reply_text() {
    let request = Message {
        uid: "123".to_string(),
        data: b"ping".to_vec(),
        data_length: 4,
    };

    let response = build_response_message(request).expect("valid message");
    assert_eq!(response.uid, "123");
    let text = String::from_utf8(response.data).expect("valid UTF-8");
    assert_eq!(text, "Server reply: ping");
    assert_eq!(response.data_length, text.len() as u64);
}

#[test]
fn decode_ascii_payload_reads_only_the_declared_bytes() {
    assert_eq!(decode_ascii_payload(b"hello\xff", 5).unwrap(), "hello");
    assert_eq!(decode_ascii_payload(b"", 0).unwrap(), "");
}

#[test]
fn decode_ascii_payload_reports_each_error() {
    assert_eq!(decode_ascii_payload(b"hi", 5).unwrap_err(), EchoError::PayloadTooShort);
    assert_eq!(decode_ascii_payload(&[b'a', 0x80], 2).unwrap_err(), EchoError::NotAscii);
    if usize::BITS < 64 {
        assert_eq!(
            decode_ascii_payload(b"hi", u64::MAX).unwrap_err(),
            EchoError::DeclaredLengthTooLarge
        );
    } else {
        assert_eq!(decode_ascii_payload(b"hi", u64::MAX).unwrap_err(), EchoError::PayloadTooShort);
    }
}

#[test]
fn error_descriptions_match_the_service() {
    assert_eq!(
        EchoError::PayloadTooShort.description(),
        "payload shorter than declared data length"
    );
    assert_eq!(EchoError::NotAscii.description(), "payload is not ASCII encoded");
    assert!(EchoError::NotAscii.is_invalid_argument());
    assert!(!EchoError::ReplyTooLong.is_invalid_argument());
}

#[test]
fn reply_ignores_bytes_beyond_the_declared_length() {
    let request = Message { uid: "u".to_string(), data: b"pingpong".to_vec(), data_length: 4 };
    let reply = build_response_message(request).expect("valid message");
    assert_eq!(reply.data, b"Server reply: ping".to_vec());
    assert_eq!(reply.data_length, 18);
}

#[test]
fn service_echo_answers_and_refuses() {
    let service = MessageEchoService::new();
    let reply = service
        .echo(Message { uid: "id".to_string(), data: b"abc".to_vec(), data_length: 3 })
        .expect("valid message");
    assert_eq!(reply.uid, "id");
    assert_eq!(reply.data, b"Server reply: abc".to_vec());
    assert_eq!(
        service.echo(Message { uid: "id".to_string(), data: vec![0xc3, 0xa9], data_length: 2 }).unwrap_err(),
        EchoError::NotAscii
    );
}

#[test]
fn echo_reply_survives_the_wire() {
    let service = MessageEchoService::default();
    let request = Message { uid: "123e4567-e89b-12d3-a456-426614174000".to_string(), data: b"ping".to_vec(), data_length: 4 };
    let decoded_request = Message::decode(&request.encode_to_vec()).expect("request decodes");
    let reply = service.echo(decoded_request).expect("echo response");
    let decoded_reply = Message::decode(&reply.encode_to_vec()).expect("reply decodes");
    let response_text = String::from_utf8(decoded_reply.data.clone()).expect("utf8 response");
    assert_eq!(response_text, "Server reply: ping");
    assert_eq!(decoded_reply.uid, "123e4567-e89b-12d3-a456-426614174000");
    assert_eq!(decoded_reply.data_length, decoded_reply.data.len() as u64);
}
