use torrant::tracker::udp::{
    event_code, verify_transaction_id, Event, TrackerAnnounceRequest, TrackerAnnounceResponse,
    TrackerHandshakeRequest, TrackerHandshakeResponse,
};
use torrant::tracker::{Peers, TrackerError};
use torrant::DecodeOutcome;

#[test]
fn connect_request_wire_form() {
    let req = TrackerHandshakeRequest::new(5);
    assert_eq!(req.connection_id, 0x41727101980);
    assert_eq!(req.action, 0);
    let bytes = req.encode();
    let mut expected = vec![0u8, 0, 4, 23, 39, 16, 25, 128];
    expected.extend_from_slice(&[0, 0, 0, 0]);
    expected.extend_from_slice(&[0, 0, 0, 5]);
    assert_eq!(bytes, expected);
}

#[test]
fn connect_response_decodes() {
    let mut buf = vec![0u8, 0, 0, 0];
    buf.extend_from_slice(&[0, 0, 0, 42]);
    buf.extend_from_slice(&[1, 2, 3, 4, 5, 6, 7, 8]);
    match TrackerHandshakeResponse::decode(&buf) {
        DecodeOutcome::Parsed(resp, consumed) => {
            assert_eq!(consumed, 16);
            assert_eq!(resp.action, 0);
            assert_eq!(resp.transaction_id, 42);
            assert_eq!(resp.connection_id, 0x0102030405060708);
        },
        other => panic!("expected a parsed response, got {:?}", other),
    }
    let short = buf[..10].to_vec();
    assert!(matches!(TrackerHandshakeResponse::decode(&short), DecodeOutcome::Incomplete(6)));
}

#[test]
fn transaction_id_mismatch_is_rejected() {
    assert!(verify_transaction_id(5, 5).is_ok());
    match verify_transaction_id(5, 6) {
        Err(TrackerError::ReceivedIncorrectTransactionId(received, expected)) => {
            assert_eq!(received, 6);
            assert_eq!(expected, 5);
        },
        other => panic!("expected a transaction-id error, got {:?}", other),
    }
}

#[test]
fn mismatched_transaction_in_well_formed_response_is_rejected() {
    // a perfectly well-formed connect response, but with the wrong id
    let mut buf = vec![0u8, 0, 0, 0];
    buf.extend_from_slice(&[0, 0, 0, 99]);
    buf.extend_from_slice(&[9, 9, 9, 9, 9, 9, 9, 9]);
    let resp = match TrackerHandshakeResponse::decode(&buf) {
        DecodeOutcome::Parsed(resp, _) => resp,
        other => panic!("expected a parsed response, got {:?}", other),
    };
    assert!(verify_transaction_id(42, resp.transaction_id).is_err());
}

#[test]
fn event_codes_follow_the_wire_numbering() {
    assert_eq!(event_code(Event::NoEvent), 0);
    assert_eq!(event_code(Event::Completed), 1);
    assert_eq!(event_code(Event::Started), 2);
    assert_eq!(event_code(Event::Stopped), 3);
}

#[test]
fn announce_request_wire_form() {
    let req = TrackerAnnounceRequest::new(
        0x0102030405060708,
        7,
        vec![0xaa; 20],
        vec![0xbb; 20],
        0,
        1000,
        0,
        Event::Started,
        None,
        0xcafebabe,
        8570,
    );
    assert_eq!(req.action, 1);
    assert_eq!(req.num_want, -1);
    assert_eq!(req.extensions, 0);
    let bytes = req.encode();
    assert_eq!(bytes.len(), 100);
    assert_eq!(&bytes[0..8], &[1, 2, 3, 4, 5, 6, 7, 8]);
    assert_eq!(&bytes[8..12], &[0, 0, 0, 1]);
    assert_eq!(&bytes[12..16], &[0, 0, 0, 7]);
    assert_eq!(&bytes[16..36], &[0xaa; 20]);
    assert_eq!(&bytes[36..56], &[0xbb; 20]);
    assert_eq!(&bytes[56..64], &[0; 8]);
    assert_eq!(&bytes[64..72], &[0, 0, 0, 0, 0, 0, 3, 232]);
    assert_eq!(&bytes[72..80], &[0; 8]);
    assert_eq!(&bytes[80..84], &[0, 0, 0, 2]);
    assert_eq!(&bytes[84..88], &[0, 0, 0, 0]);
    assert_eq!(&bytes[88..92], &[0xca, 0xfe, 0xba, 0xbe]);
    assert_eq!(&bytes[92..96], &[0xff, 0xff, 0xff, 0xff]);
    assert_eq!(&bytes[96..98], &[0x21, 0x7a]);
    assert_eq!(&bytes[98..100], &[0, 0]);
}

fn announce_response_bytes(action: i32, txid: i32, leechers: i32, seeders: i32) -> Vec<u8> {
    let mut buf = Vec::new();
    buf.extend_from_slice(&action.to_be_bytes());
    buf.extend_from_slice(&txid.to_be_bytes());
    buf.extend_from_slice(&1800i32.to_be_bytes());
    buf.extend_from_slice(&leechers.to_be_bytes());
    buf.extend_from_slice(&seeders.to_be_bytes());
    buf
}

#[test]
fn announce_response_decodes_with_peers() {
    let mut buf = announce_response_bytes(1, 77, 1, 1);
    buf.extend_from_slice(&[10, 0, 0, 1, 0x1a, 0xe1]);
    buf.extend_from_slice(&[192, 168, 0, 2, 0x21, 0x7a]);
    match TrackerAnnounceResponse::decode(&buf) {
        DecodeOutcome::Parsed(resp, consumed) => {
            assert_eq!(consumed, 32);
            assert_eq!(resp.action, 1);
            assert_eq!(resp.transaction_id, 77);
            assert_eq!(resp.interval, 1800);
            assert_eq!(resp.leechers, 1);
            assert_eq!(resp.seeders, 1);
            assert_eq!(resp.peers.len(), 2);
            assert_eq!(resp.peers[0].ip, 0x0a000001);
            assert_eq!(resp.peers[0].port, 6881);
            assert_eq!(resp.peers[1].port, 8570);
        },
        other => panic!("expected a parsed response, got {:?}", other),
    }
}

#[test]
fn announce_response_short_fill_asks_for_more() {
    // header promises two peers but only one arrived: keep reading
    let mut buf = announce_response_bytes(1, 77, 1, 1);
    buf.extend_from_slice(&[10, 0, 0, 1, 0x1a, 0xe1]);
    match TrackerAnnounceResponse::decode(&buf) {
        DecodeOutcome::Incomplete(needed) => assert_eq!(needed, 6),
        other => panic!("expected incomplete, got {:?}", other),
    }
}

#[test]
fn announce_response_wrong_action_is_rejected() {
    let buf = announce_response_bytes(2, 77, 0, 0);
    assert!(matches!(
        TrackerAnnounceResponse::decode(&buf),
        DecodeOutcome::Invalid(TrackerError::InvalidBodyInTrackerResponse)
    ));
}

#[test]
fn announce_response_negative_count_is_rejected() {
    let buf = announce_response_bytes(1, 77, -1, 0);
    assert!(matches!(
        TrackerAnnounceResponse::decode(&buf),
        DecodeOutcome::Invalid(TrackerError::InvalidBodyInTrackerResponse)
    ));
}

#[test]
fn announce_response_normalizes() {
    let mut buf = announce_response_bytes(1, 5, 0, 1);
    buf.extend_from_slice(&[10, 0, 0, 1, 0x1a, 0xe1]);
    let resp = match TrackerAnnounceResponse::decode(&buf) {
        DecodeOutcome::Parsed(resp, _) => resp,
        other => panic!("expected a parsed response, got {:?}", other),
    };
    let normalized = resp.into_response();
    assert_eq!(normalized.complete, 0);
    assert_eq!(normalized.incomplete, 1);
    assert_eq!(normalized.interval, 1800);
    match normalized.peers {
        Peers::Binary(v) => {
            assert_eq!(v.len(), 1);
            assert_eq!(v[0].addr, 0x0a000001);
            assert_eq!(v[0].port, 6881);
        },
        other => panic!("expected binary peers, got {:?}", other),
    }
}
