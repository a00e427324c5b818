use pubsub::codec::LineCodec;
use pubsub::messages::{AckMessage, PubMessage, Subscribe};

#[test]
fn encode_pub_exact_bytes() {
    let m = PubMessage { channel: b"abc".to_vec(), payload: b"hi".to_vec() };
    let frame = LineCodec::encode_pub(&m);
    assert_eq!(frame, b"{\"channel\":\"abc\",\"payload\":\"hi\"}\n".to_vec());
}

#[test]
fn encode_sub_exact_bytes() {
    let m = Subscribe { channel: b"x".to_vec() };
    let frame = LineCodec::encode_sub(&m);
    assert_eq!(frame, b"{\"channel\":\"x\"}\n".to_vec());
}

#[test]
fn encode_ack_exact_bytes() {
    let frame = LineCodec::encode_ack(&AckMessage::new());
    assert_eq!(frame, b"{\"ack\":true}\n".to_vec());
}

#[test]
fn pub_round_trip_plain() {
    let m = PubMessage { channel: b"abc".to_vec(), payload: b"hello world".to_vec() };
    let mut frame = LineCodec::encode_pub(&m);
    assert_eq!(frame.pop(), Some(b'\n'));
    let back = LineCodec::parse_pub_body(&frame).expect("parses");
    assert_eq!(back.channel, m.channel);
    assert_eq!(back.payload, m.payload);
}

#[test]
fn pub_round_trip_escapes() {
    let m = PubMessage {
        channel: b"a\"b\\c".to_vec(),
        payload: b"x\ny\rz\tw\x01\x1f end".to_vec(),
    };
    let mut frame = LineCodec::encode_pub(&m);
    // no raw newline inside the body
    assert_eq!(frame.iter().filter(|b| **b == b'\n').count(), 1);
    assert_eq!(frame.pop(), Some(b'\n'));
    let back = LineCodec::parse_pub_body(&frame).expect("parses");
    assert_eq!(back.channel, m.channel);
    assert_eq!(back.payload, m.payload);
}

#[test]
fn sub_round_trip() {
    let m = Subscribe { channel: b"topic-42 \\ \"q\"".to_vec() };
    let mut frame = LineCodec::encode_sub(&m);
    assert_eq!(frame.pop(), Some(b'\n'));
    let back = LineCodec::parse_sub_body(&frame).expect("parses");
    assert_eq!(back.channel, m.channel);
}

#[test]
fn ack_round_trip() {
    let mut frame = LineCodec::encode_ack(&AckMessage::new());
    assert_eq!(frame.pop(), Some(b'\n'));
    let back = LineCodec::parse_ack_body(&frame).expect("parses");
    assert!(back.ack);
}

#[test]
fn parse_rejects_garbage() {
    assert!(LineCodec::parse_pub_body(&b"not json".to_vec()).is_none());
    assert!(LineCodec::parse_pub_body(&b"{\"channel\":\"a\"}".to_vec()).is_none());
    assert!(LineCodec::parse_pub_body(&Vec::new()).is_none());
    assert!(LineCodec::parse_sub_body(&b"{\"channel\":\"a\"".to_vec()).is_none());
    assert!(LineCodec::parse_ack_body(&b"{\"ack\":maybe}".to_vec()).is_none());
}

#[test]
fn parse_rejects_trailing_bytes() {
    assert!(LineCodec::parse_pub_body(
        &b"{\"channel\":\"a\",\"payload\":\"b\"}x".to_vec()
    )
    .is_none());
    assert!(LineCodec::parse_sub_body(&b"{\"channel\":\"a\"}x".to_vec()).is_none());
}

#[test]
fn encoded_pub_is_real_json() {
    let m = PubMessage {
        channel: b"ab\"c".to_vec(),
        payload: b"line1\nline2\t\\end\x02".to_vec(),
    };
    let mut frame = LineCodec::encode_pub(&m);
    assert_eq!(frame.pop(), Some(b'\n'));
    let v: serde_json::Value = serde_json::from_slice(&frame).expect("valid JSON");
    assert_eq!(v["channel"].as_str().unwrap().as_bytes(), m.channel.as_slice());
    assert_eq!(v["payload"].as_str().unwrap().as_bytes(), m.payload.as_slice());
}

#[test]
fn serde_emitted_frame_parses() {
    let mut obj = serde_json::Map::new();
    obj.insert(
        "channel".to_string(),
        serde_json::Value::String("news".to_string()),
    );
    obj.insert(
        "payload".to_string(),
        serde_json::Value::String("quote \" and tab\t".to_string()),
    );
    let body = serde_json::to_vec(&serde_json::Value::Object(obj)).unwrap();
    let m = LineCodec::parse_pub_body(&body).expect("parses serde output");
    assert_eq!(m.channel, b"news".to_vec());
    assert_eq!(m.payload, b"quote \" and tab\t".to_vec());
}
