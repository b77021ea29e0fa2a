use iot_hub::proto::{Message, MessageCodec};

#[test]
fn decode_reads_tag_and_payload() {
    let codec = MessageCodec;
    let buf = vec![0x01u8, b'h', b'i'];
    match codec.decode(&buf) {
        Some(Message::Connect(s)) => assert_eq!("hi", s),
        _ => panic!("expected a connect message"),
    }
    let buf2 = vec![0x02u8, b't', b'.', b'c'];
    match codec.decode(&buf2) {
        Some(Message::Pub(s)) => assert_eq!("t.c", s),
        _ => panic!("expected a publish message"),
    }
}

#[test]
fn decode_rejects_empty_unknown_and_bad_payloads() {
    let codec = MessageCodec;
    assert!(codec.decode(&Vec::new()).is_none());
    assert!(codec.decode(&vec![0xFFu8, b'x']).is_none());
    // An invalid UTF-8 payload is rejected, not handed through.
    assert!(codec.decode(&vec![0x01u8, 0xFF, 0xFE]).is_none());
}

#[test]
fn encode_writes_tag_and_payload() {
    let codec = MessageCodec;
    let out = codec.encode(&Message::Pub(String::from("x")));
    assert_eq!(out, vec![0x02u8, b'x']);
    let out2 = codec.encode(&Message::Sub(String::from("a.b")));
    assert_eq!(out2, vec![0x03u8, b'a', b'.', b'b']);
}

#[test]
fn encode_then_decode_round_trips() {
    let codec = MessageCodec;
    let bytes = codec.encode(&Message::Ack(String::from("payload")));
    match codec.decode(&bytes) {
        Some(Message::Ack(s)) => assert_eq!("payload", s),
        _ => panic!("expected the acknowledgement back"),
    }
    let bytes2 = codec.encode(&Message::Ping(String::from("")));
    match codec.decode(&bytes2) {
        Some(Message::Ping(s)) => assert_eq!("", s),
        _ => panic!("expected the ping back"),
    }
}
