use torrant::tracker::{
    build_announce_query, decode_compact_peers, generate_peer_id, parse_ipv4,
    parse_tracker_response, scheme_kind, url_encode_bytes, PeerIp, Peers, TrackerError, UrlScheme,
};

#[test]
fn test_byte_encode() {
    let bytes =
        b"\x12\x34\x56\x78\x9a\xbc\xde\xf1\x23\x45\x67\x89\xab\xcd\xef\x12\x34\x56\x78\x9a";
    let encoded = url_encode_bytes(&bytes.to_vec());

    assert_eq!(encoded, "%124Vx%9A%BC%DE%F1%23Eg%89%AB%CD%EF%124Vx%9A")
}

#[test]
fn url_encode_space_and_unreserved() {
    assert_eq!(url_encode_bytes(&b"a Z9.-_~".to_vec()), "a+Z9.-_~");
    assert_eq!(url_encode_bytes(&b"\x00\xff".to_vec()), "%00%FF");
}

#[test]
fn announce_query_exact_text() {
    let info_hash: Vec<u8> = (1u8..=20).collect();
    let peer_id = b"ABCDEFGHIJKLMNOPQRST".to_vec();
    let query = build_announce_query(&info_hash, &peer_id, 6881, 1000);
    assert_eq!(
        query,
        "peer_id=ABCDEFGHIJKLMNOPQRST&port=6881&uploaded=0&downloaded=0&compact=1&left=1000&info_hash=%01%02%03%04%05%06%07%08%09%0A%0B%0C%0D%0E%0F%10%11%12%13%14"
    );
}

#[test]
fn compact_peers_of_12_bytes_are_two_pairs() {
    let bytes = vec![10, 0, 0, 1, 0x1a, 0xe1, 192, 168, 0, 2, 0x21, 0x7a];
    let peers = decode_compact_peers(&bytes).unwrap();
    assert_eq!(peers.len(), 2);
    assert_eq!(peers[0].addr, 0x0a000001);
    assert_eq!(peers[0].port, 6881);
    assert_eq!(peers[1].addr, 0xc0a80002);
    assert_eq!(peers[1].port, 8570);
}

#[test]
fn compact_peers_of_7_bytes_are_rejected() {
    let bytes = vec![10, 0, 0, 1, 0x1a, 0xe1, 5];
    assert_eq!(
        decode_compact_peers(&bytes),
        Err(TrackerError::InvalidBodyInTrackerResponse)
    );
}

#[test]
fn scheme_dispatch() {
    assert_eq!(scheme_kind(&b"http".to_vec()), UrlScheme::Http);
    assert_eq!(scheme_kind(&b"https".to_vec()), UrlScheme::Https);
    assert_eq!(scheme_kind(&b"udp".to_vec()), UrlScheme::Udp);
    assert_eq!(scheme_kind(&b"ftp".to_vec()), UrlScheme::Unknown);
    assert_eq!(scheme_kind(&b"".to_vec()), UrlScheme::Unknown);
}

#[test]
fn generated_peer_id_has_the_client_prefix() {
    let id = generate_peer_id();
    assert_eq!(id.len(), 20);
    assert_eq!(&id[..9], b"-TA00000-");
}

#[test]
fn ipv4_text_parses_canonically() {
    assert_eq!(parse_ipv4(&b"1.2.3.4".to_vec()), Some((1, 2, 3, 4)));
    assert_eq!(parse_ipv4(&b"255.255.255.255".to_vec()), Some((255, 255, 255, 255)));
    assert_eq!(parse_ipv4(&b"0.0.0.0".to_vec()), Some((0, 0, 0, 0)));
    assert_eq!(parse_ipv4(&b"1.2.3".to_vec()), None);
    assert_eq!(parse_ipv4(&b"01.2.3.4".to_vec()), None);
    assert_eq!(parse_ipv4(&b"256.1.1.1".to_vec()), None);
    assert_eq!(parse_ipv4(&b"1.2.3.4.5".to_vec()), None);
    assert_eq!(parse_ipv4(&b"example.com".to_vec()), None);
}

#[test]
fn tracker_failure_reason_is_surfaced() {
    let body = b"d14:failure reason4:nopee".to_vec();
    match parse_tracker_response(&body) {
        Err(TrackerError::TrackerReturnedError(reason)) => assert_eq!(reason, "nope"),
        other => panic!("expected a tracker rejection, got {:?}", other),
    }
}

#[test]
fn tracker_response_with_compact_peers() {
    let mut body = b"d8:completei5e10:incompletei7e8:intervali1800e5:peers6:".to_vec();
    body.extend_from_slice(&[10, 0, 0, 1, 0x1a, 0xe1]);
    body.push(b'e');
    let resp = parse_tracker_response(&body).unwrap();
    assert_eq!(resp.complete, 5);
    assert_eq!(resp.incomplete, 7);
    assert_eq!(resp.interval, 1800);
    match resp.peers {
        Peers::Binary(v) => {
            assert_eq!(v.len(), 1);
            assert_eq!(v[0].addr, 0x0a000001);
            assert_eq!(v[0].port, 6881);
        },
        other => panic!("expected binary peers, got {:?}", other),
    }
}

#[test]
fn tracker_response_with_dictionary_peers() {
    let mut body = b"d8:completei1e10:incompletei2e8:intervali900e5:peersl".to_vec();
    body.extend_from_slice(b"d2:ip8:10.0.0.17:peer id20:AAAAAAAAAAAAAAAAAAAA4:porti6881ee");
    body.extend_from_slice(b"d2:ip11:example.com7:peer id20:BBBBBBBBBBBBBBBBBBBB4:porti80ee");
    body.extend_from_slice(b"ee");
    let resp = parse_tracker_response(&body).unwrap();
    match resp.peers {
        Peers::Dictionary(v) => {
            assert_eq!(v.len(), 2);
            assert_eq!(v[0].peer_id, b"AAAAAAAAAAAAAAAAAAAA".to_vec());
            assert_eq!(v[0].port, 6881);
            match &v[0].ip {
                PeerIp::IpAddr(a, b, c, d) => assert_eq!((*a, *b, *c, *d), (10, 0, 0, 1)),
                other => panic!("expected a literal address, got {:?}", other),
            }
            match &v[1].ip {
                PeerIp::Dns(name) => assert_eq!(name, "example.com"),
                other => panic!("expected a hostname, got {:?}", other),
            }
        },
        other => panic!("expected dictionary peers, got {:?}", other),
    }
}

#[test]
fn tracker_response_compact_length_not_multiple_of_6_is_rejected() {
    let mut body = b"d8:completei0e10:incompletei0e8:intervali60e5:peers7:".to_vec();
    body.extend_from_slice(&[1, 2, 3, 4, 5, 6, 7]);
    body.push(b'e');
    assert_eq!(
        parse_tracker_response(&body),
        Err(TrackerError::InvalidBodyInTrackerResponse)
    );
}

#[test]
fn tracker_response_missing_field_is_rejected() {
    let body = b"d8:intervali60ee".to_vec();
    assert!(parse_tracker_response(&body).is_err());
}
