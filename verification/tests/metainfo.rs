use torrant::metainfo::{Key, Metainfo, MetainfoError};

fn single_file_torrent() -> Vec<u8> {
    let mut data = b"d8:announce19:http://tracker.test4:infod".to_vec();
    data.extend_from_slice(b"6:lengthi1000e4:name4:test12:piece lengthi256e6:pieces20:");
    data.extend_from_slice(&[b'A'; 20]);
    data.extend_from_slice(b"ee");
    data
}

#[test]
fn parses_a_single_file_torrent() {
    let data = single_file_torrent();
    let m = Metainfo::parse(&data).unwrap();
    assert_eq!(m.announce_url(), "http://tracker.test");
    let info = m.info();
    assert_eq!(info.name, "test");
    assert_eq!(info.piece_length, 256);
    assert_eq!(info.piece_count(), 1);
    assert_eq!(info.pieces.count(), 1);
    assert_eq!(info.pieces.0[0].0, vec![b'A'; 20]);
    assert_eq!(info.total_bytes(), 1000);
    assert!(matches!(info.key, Key::KeyLength { length: 1000 }));
}

#[test]
fn parses_a_multi_file_torrent() {
    let mut data = b"d8:announce10:udp://t.io4:infod".to_vec();
    data.extend_from_slice(b"5:filesl");
    data.extend_from_slice(b"d6:lengthi600e4:pathl3:dir5:a.txtee");
    data.extend_from_slice(b"d6:lengthi400e4:pathl5:b.binee");
    data.extend_from_slice(b"e");
    data.extend_from_slice(b"4:name3:two12:piece lengthi512e6:pieces40:");
    data.extend_from_slice(&[7u8; 40]);
    data.extend_from_slice(b"ee");
    let m = Metainfo::parse(&data).unwrap();
    let info = m.info();
    assert_eq!(info.total_bytes(), 1000);
    assert_eq!(info.piece_count(), 2);
    match &info.key {
        Key::KeyFiles { files } => {
            assert_eq!(files.len(), 2);
            assert_eq!(files[0].length, 600);
            assert_eq!(files[0].path, vec!["dir".to_string(), "a.txt".to_string()]);
            assert_eq!(files[1].length, 400);
            assert_eq!(files[1].path, vec!["b.bin".to_string()]);
        },
        other => panic!("expected a multi-file layout, got {:?}", other),
    }
}

#[test]
fn pieces_of_21_bytes_are_rejected() {
    let mut data = b"d8:announce4:http4:infod".to_vec();
    data.extend_from_slice(b"6:lengthi1e4:name1:x12:piece lengthi1e6:pieces21:");
    data.extend_from_slice(&[0u8; 21]);
    data.extend_from_slice(b"ee");
    assert_eq!(Metainfo::parse(&data), Err(MetainfoError::PiecesLength));
}

#[test]
fn ambiguous_file_layout_is_rejected() {
    // both length and files present
    let mut data = b"d8:announce4:http4:infod".to_vec();
    data.extend_from_slice(b"5:filesld6:lengthi1e4:pathl1:aeee");
    data.extend_from_slice(b"6:lengthi1e4:name1:x12:piece lengthi1e6:pieces0:");
    data.extend_from_slice(b"ee");
    assert_eq!(Metainfo::parse(&data), Err(MetainfoError::AmbiguousFileLayout));
    // neither present
    let mut data = b"d8:announce4:http4:infod".to_vec();
    data.extend_from_slice(b"4:name1:x12:piece lengthi1e6:pieces0:");
    data.extend_from_slice(b"ee");
    assert_eq!(Metainfo::parse(&data), Err(MetainfoError::AmbiguousFileLayout));
}

#[test]
fn top_level_must_be_a_dictionary() {
    assert_eq!(Metainfo::parse(&b"i5e".to_vec()), Err(MetainfoError::Structure));
    assert_eq!(Metainfo::parse(&b"xyz".to_vec()), Err(MetainfoError::Syntax));
}

#[test]
fn trailing_bytes_are_rejected() {
    let mut data = single_file_torrent();
    data.push(b'x');
    assert_eq!(Metainfo::parse(&data), Err(MetainfoError::TrailingBytes));
}

#[test]
fn info_hash_is_deterministic_and_exact() {
    let data = single_file_torrent();
    let m1 = Metainfo::parse(&data).unwrap();
    let m2 = Metainfo::parse(&data).unwrap();
    let h1 = m1.info().info_hash();
    let h2 = m2.info().info_hash();
    assert_eq!(h1, h2);
    assert_eq!(h1.len(), 20);
    // SHA-1 of the exact info-dictionary bytes inside single_file_torrent()
    assert_eq!(
        h1,
        vec![
            106u8, 12, 33, 11, 87, 74, 193, 46, 40, 66, 225, 238, 140, 105, 199, 222, 172, 175,
            171, 50
        ]
    );
}

#[test]
fn changing_a_field_changes_the_hash() {
    let data1 = single_file_torrent();
    let mut data2 = single_file_torrent();
    // change the declared length from 1000 to 1001
    let pos = data2.windows(5).position(|w| w == b"i1000").unwrap();
    data2[pos + 4] = b'1';
    let h1 = Metainfo::parse(&data1).unwrap().info().info_hash();
    let h2 = Metainfo::parse(&data2).unwrap().info().info_hash();
    assert_ne!(h1, h2);
}

#[test]
fn negative_length_is_rejected() {
    let mut data = b"d8:announce4:http4:infod".to_vec();
    data.extend_from_slice(b"6:lengthi-1e4:name1:x12:piece lengthi1e6:pieces0:");
    data.extend_from_slice(b"ee");
    assert_eq!(Metainfo::parse(&data), Err(MetainfoError::IntOutOfRange));
}

#[test]
fn file_total_beyond_the_machine_is_rejected() {
    let mut data = b"d8:announce4:http4:infod".to_vec();
    data.extend_from_slice(b"5:filesl");
    for _ in 0..3 {
        data.extend_from_slice(b"d6:lengthi9223372036854775807e4:pathl1:aee");
    }
    data.extend_from_slice(b"e");
    data.extend_from_slice(b"4:name1:x12:piece lengthi1e6:pieces0:");
    data.extend_from_slice(b"ee");
    assert_eq!(Metainfo::parse(&data), Err(MetainfoError::IntOutOfRange));
}

#[test]
fn multi_byte_utf8_name_decodes() {
    let mut data = b"d8:announce4:http4:infod".to_vec();
    data.extend_from_slice(b"6:lengthi1e4:name6:");
    data.extend_from_slice("héllo".as_bytes());
    data.extend_from_slice(b"12:piece lengthi1e6:pieces0:");
    data.extend_from_slice(b"ee");
    let m = Metainfo::parse(&data).unwrap();
    assert_eq!(m.info().name, "héllo");
}

#[test]
fn invalid_utf8_name_is_rejected() {
    let mut data = b"d8:announce4:http4:infod".to_vec();
    data.extend_from_slice(b"6:lengthi1e4:name1:");
    data.push(0xff);
    data.extend_from_slice(b"12:piece lengthi1e6:pieces0:");
    data.extend_from_slice(b"ee");
    assert_eq!(Metainfo::parse(&data), Err(MetainfoError::BadText));
}
