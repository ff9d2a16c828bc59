use torrant::bencode::{encode_value, parse_value, Bencode};

fn round_trips(input: &[u8]) {
    let buf = input.to_vec();
    let (v, end) = parse_value(&buf, 0).unwrap();
    assert_eq!(end, buf.len());
    let mut out = Vec::new();
    encode_value(&v, &mut out);
    assert_eq!(out, buf);
}

#[test]
fn parse_then_encode_reproduces_the_input() {
    round_trips(b"i0e");
    round_trips(b"i42e");
    round_trips(b"i-7e");
    round_trips(b"i9223372036854775807e");
    round_trips(b"i-9223372036854775808e");
    round_trips(b"0:");
    round_trips(b"4:spam");
    round_trips(b"le");
    round_trips(b"li1ei2e4:spame");
    round_trips(b"de");
    round_trips(b"d3:cow3:moo4:spaml1:a1:bee");
    round_trips(b"d4:infod5:filesld6:lengthi1e4:pathl1:aeeeee");
}

#[test]
fn parsed_shapes_are_faithful() {
    let (v, _) = parse_value(&b"li1e2:abe".to_vec(), 0).unwrap();
    match v {
        Bencode::List(items) => {
            assert_eq!(items.len(), 2);
            assert_eq!(items[0], Bencode::Int(1));
            assert_eq!(items[1], Bencode::Bytes(b"ab".to_vec()));
        },
        other => panic!("expected a list, got {:?}", other),
    }
}

#[test]
fn non_canonical_spellings_are_rejected() {
    // leading zeros, negative zero, bare minus, empty integer
    assert!(parse_value(&b"i03e".to_vec(), 0).is_err());
    assert!(parse_value(&b"i-0e".to_vec(), 0).is_err());
    assert!(parse_value(&b"i-e".to_vec(), 0).is_err());
    assert!(parse_value(&b"ie".to_vec(), 0).is_err());
    assert!(parse_value(&b"01:a".to_vec(), 0).is_err());
}

#[test]
fn truncated_values_are_rejected() {
    assert!(parse_value(&b"i42".to_vec(), 0).is_err());
    assert!(parse_value(&b"4:spa".to_vec(), 0).is_err());
    assert!(parse_value(&b"li1e".to_vec(), 0).is_err());
    assert!(parse_value(&b"d3:cow".to_vec(), 0).is_err());
    assert!(parse_value(&b"".to_vec(), 0).is_err());
}

#[test]
fn integer_overflow_is_rejected() {
    assert!(parse_value(&b"i9223372036854775808e".to_vec(), 0).is_err());
    assert!(parse_value(&b"i-9223372036854775809e".to_vec(), 0).is_err());
    assert!(parse_value(&b"i99999999999999999999e".to_vec(), 0).is_err());
}
