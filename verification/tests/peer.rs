use torrant::peer::{PeerCodec, PeerMessage, PeerMessageError};
use torrant::DecodeOutcome;

fn round_trip(msg: PeerMessage) {
    let frame = PeerCodec::encode(&msg);
    match PeerCodec::decode(&frame) {
        DecodeOutcome::Parsed(back, consumed) => {
            assert_eq!(consumed, frame.len());
            assert_eq!(back, msg);
        },
        other => panic!("expected {:?} back, got {:?}", msg, other),
    }
}

#[test]
fn every_variant_round_trips() {
    round_trip(PeerMessage::KeepAlive);
    round_trip(PeerMessage::Choke);
    round_trip(PeerMessage::Unchoke);
    round_trip(PeerMessage::Interested);
    round_trip(PeerMessage::NotInterested);
    round_trip(PeerMessage::Have(0xdeadbeef));
    round_trip(PeerMessage::Bitfield(vec![]));
    round_trip(PeerMessage::Bitfield(vec![0xff, 0x01, 0x80]));
    round_trip(PeerMessage::Request(3, 0, 16384));
    round_trip(PeerMessage::Piece(1, 2, vec![]));
    round_trip(PeerMessage::Piece(7, 512, vec![1, 2, 3, 4, 5]));
    round_trip(PeerMessage::Cancel(9, 8, 7));
}

#[test]
fn encode_request_exact_bytes() {
    let frame = PeerCodec::encode(&PeerMessage::Request(3, 0, 16384));
    assert_eq!(frame, vec![0, 0, 0, 13, 6, 0, 0, 0, 3, 0, 0, 0, 0, 0, 0, 64, 0]);
}

#[test]
fn keep_alive_is_a_zero_length_frame() {
    assert_eq!(PeerCodec::encode(&PeerMessage::KeepAlive), vec![0, 0, 0, 0]);
    assert_eq!(
        PeerCodec::decode(&vec![0, 0, 0, 0]),
        DecodeOutcome::Parsed(PeerMessage::KeepAlive, 4)
    );
}

#[test]
fn partial_frames_never_parse_and_never_error() {
    let frame = PeerCodec::encode(&PeerMessage::Piece(4, 16384, vec![9; 11]));
    for cut in 0..frame.len() {
        let prefix = frame[..cut].to_vec();
        match PeerCodec::decode(&prefix) {
            DecodeOutcome::Incomplete(_) => {},
            other => panic!("prefix of {} bytes must be incomplete, got {:?}", cut, other),
        }
    }
}

#[test]
fn incomplete_hint_is_the_exact_deficit() {
    assert_eq!(
        PeerCodec::decode(&vec![0, 0]),
        DecodeOutcome::Incomplete(2)
    );
    // declared length 13, only the id byte buffered: 12 more bytes missing
    assert_eq!(
        PeerCodec::decode(&vec![0, 0, 0, 13, 6]),
        DecodeOutcome::Incomplete(12)
    );
}

#[test]
fn have_with_wrong_length_is_rejected() {
    // declares length 6 for a Have, which must be exactly 5
    let buf = vec![0, 0, 0, 6, 4, 0, 0, 0, 1, 9];
    assert_eq!(
        PeerCodec::decode(&buf),
        DecodeOutcome::Invalid(PeerMessageError::IncorrectLength(4, 6))
    );
}

#[test]
fn unknown_id_is_rejected() {
    let buf = vec![0, 0, 0, 1, 9];
    assert_eq!(
        PeerCodec::decode(&buf),
        DecodeOutcome::Invalid(PeerMessageError::InvalidId(9))
    );
}

#[test]
fn rejected_frames_report_the_offending_bytes() {
    // Request declared with length 12 instead of 13
    let mut buf = vec![0, 0, 0, 12, 6];
    buf.extend_from_slice(&[0; 11]);
    assert_eq!(
        PeerCodec::decode(&buf),
        DecodeOutcome::Invalid(PeerMessageError::IncorrectLength(6, 12))
    );
}

#[test]
fn new_codec_starts_choked_and_uninterested() {
    let codec = PeerCodec::new();
    assert!(codec.am_choking);
    assert!(!codec.am_interested);
    assert!(codec.peer_choking);
    assert!(!codec.peer_interested);
}
