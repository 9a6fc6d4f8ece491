//! Tests of the wire-message codec.

use quorum_scaler::message::{decode_message, encode_message, Message};

fn roundtrip(m: Message) -> Message {
    let bytes = encode_message(&m);
    decode_message(&bytes).expect("canonical encoding must decode")
}

#[test]
fn proposal_encodes_canonically() {
    let m = Message::Proposal {
        node_id: b"10.0.0.1:4000".to_vec(),
    };
    let bytes = encode_message(&m);
    assert_eq!(bytes, b"{\"Proposal\":{\"node_id\":\"10.0.0.1:4000\"}}".to_vec());
}

#[test]
fn confirmation_encodes_canonically() {
    let m = Message::Confirmation {
        node_id: b"10.0.0.2:4000".to_vec(),
    };
    let bytes = encode_message(&m);
    assert_eq!(
        bytes,
        b"{\"Confirmation\":{\"node_id\":\"10.0.0.2:4000\"}}".to_vec()
    );
}

#[test]
fn scale_complete_encodes_canonically() {
    let bytes = encode_message(&Message::ScaleComplete);
    assert_eq!(bytes, b"{\"ScaleComplete\":{}}".to_vec());
}

#[test]
fn proposal_round_trips() {
    let m = Message::Proposal {
        node_id: b"10.0.0.1:4000".to_vec(),
    };
    assert_eq!(roundtrip(m.clone()), m);
}

#[test]
fn confirmation_round_trips() {
    let m = Message::Confirmation {
        node_id: b"192.168.0.7:65535".to_vec(),
    };
    assert_eq!(roundtrip(m.clone()), m);
}

#[test]
fn scale_complete_round_trips() {
    assert_eq!(roundtrip(Message::ScaleComplete), Message::ScaleComplete);
}

#[test]
fn payload_with_quotes_and_backslashes_round_trips() {
    let m = Message::Proposal {
        node_id: b"a\"b\\c".to_vec(),
    };
    let bytes = encode_message(&m);
    assert_eq!(bytes, b"{\"Proposal\":{\"node_id\":\"a\\\"b\\\\c\"}}".to_vec());
    assert_eq!(roundtrip(m.clone()), m);
}

#[test]
fn empty_payload_round_trips() {
    let m = Message::Confirmation { node_id: Vec::new() };
    let bytes = encode_message(&m);
    assert_eq!(bytes, b"{\"Confirmation\":{\"node_id\":\"\"}}".to_vec());
    assert_eq!(roundtrip(m.clone()), m);
}

#[test]
fn unknown_variant_is_rejected() {
    assert_eq!(decode_message(&b"{\"Abort\":{}}".to_vec()), None);
}

#[test]
fn garbage_is_rejected() {
    assert_eq!(decode_message(&b"not json at all".to_vec()), None);
    assert_eq!(decode_message(&Vec::new()), None);
}

#[test]
fn truncated_message_is_rejected() {
    assert_eq!(decode_message(&b"{\"Proposal\":{\"node_id\":\"x\"}".to_vec()), None);
    assert_eq!(decode_message(&b"{\"Proposal\":{\"node_id\":\"x".to_vec()), None);
}

#[test]
fn trailing_bytes_are_rejected() {
    assert_eq!(
        decode_message(&b"{\"ScaleComplete\":{}}  ".to_vec()),
        None
    );
    assert_eq!(
        decode_message(&b"{\"Proposal\":{\"node_id\":\"x\"}}y".to_vec()),
        None
    );
}
