use torrant::handshake::{Handshake, HandshakeCodec, HandshakeError};
use torrant::DecodeOutcome;

fn wire(hash: &[u8], peer_id: &[u8]) -> Vec<u8> {
    let mut buf = Vec::new();
    buf.push(19u8);
    buf.extend_from_slice(b"BitTorrent protocol");
    buf.extend_from_slice(&[0u8; 8]);
    buf.extend_from_slice(hash);
    buf.extend_from_slice(peer_id);
    buf
}

#[test]
fn decode_full_handshake() {
    let hash = [7u8; 20];
    let peer_id = [9u8; 20];
    let buf = wire(&hash, &peer_id);
    assert_eq!(buf.len(), 68);
    match HandshakeCodec::decode(&buf) {
        DecodeOutcome::Parsed(h, consumed) => {
            assert_eq!(consumed, 68);
            assert_eq!(h.hash, hash.to_vec());
            assert_eq!(h.peer_id, peer_id.to_vec());
        },
        other => panic!("expected a parsed handshake, got {:?}", other),
    }
}

#[test]
fn decode_short_buffer_is_incomplete() {
    let hash = [7u8; 20];
    let peer_id = [9u8; 20];
    let buf = wire(&hash, &peer_id);
    for cut in 0..68 {
        let prefix = buf[..cut].to_vec();
        match HandshakeCodec::decode(&prefix) {
            DecodeOutcome::Incomplete(needed) => assert_eq!(needed, 68 - cut),
            other => panic!("prefix of {} bytes must be incomplete, got {:?}", cut, other),
        }
    }
}

#[test]
fn decode_wrong_prefix_is_rejected() {
    let mut buf = wire(&[0u8; 20], &[0u8; 20]);
    buf[0] = 18;
    match HandshakeCodec::decode(&buf) {
        DecodeOutcome::Invalid(HandshakeError::WrongPrefix(p)) => assert_eq!(p, 18),
        other => panic!("expected a wrong-prefix error, got {:?}", other),
    }
}

#[test]
fn decode_wrong_protocol_text_is_rejected() {
    let mut buf = wire(&[0u8; 20], &[0u8; 20]);
    buf[1] = b'b';
    match HandshakeCodec::decode(&buf) {
        DecodeOutcome::Invalid(HandshakeError::NoProtocolText) => {},
        other => panic!("expected a protocol-text error, got {:?}", other),
    }
}

#[test]
fn encode_is_the_wire_form() {
    let h = Handshake { hash: vec![1u8; 20], peer_id: vec![2u8; 20] };
    let encoded = HandshakeCodec::encode(&h);
    assert_eq!(encoded, wire(&[1u8; 20], &[2u8; 20]));
}

#[test]
fn encode_then_decode_round_trips() {
    let h = Handshake { hash: (0u8..20).collect(), peer_id: (20u8..40).collect() };
    let encoded = HandshakeCodec::encode(&h);
    match HandshakeCodec::decode(&encoded) {
        DecodeOutcome::Parsed(back, consumed) => {
            assert_eq!(consumed, 68);
            assert_eq!(back.hash, (0u8..20).collect::<Vec<u8>>());
            assert_eq!(back.peer_id, (20u8..40).collect::<Vec<u8>>());
        },
        other => panic!("expected a parsed handshake, got {:?}", other),
    }
}
