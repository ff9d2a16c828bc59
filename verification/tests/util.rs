use torrant::util::{ByteCursor, ReadExactExt};

#[test]
fn test_read_exact() {
    let vec = vec![0u8; 50];
    let mut cursor = ByteCursor::new(vec);

    let read_arr = cursor.read_exact_arr(5);
    assert!(matches!(read_arr, Some(_)));

    let read_arr = read_arr.unwrap();
    assert_eq!(read_arr.len(), 5);
}

#[test]
fn read_exact_consumes_and_stops_at_the_end() {
    let mut cursor = ByteCursor::new(vec![1u8, 2, 3, 4, 5]);
    assert_eq!(cursor.read_exact_arr(2), Some(vec![1u8, 2]));
    assert_eq!(cursor.read_exact_arr(2), Some(vec![3u8, 4]));
    // only one byte left: no change, no partial read
    assert_eq!(cursor.read_exact_arr(2), None);
    assert_eq!(cursor.read_exact_arr(1), Some(vec![5u8]));
    assert_eq!(cursor.read_exact_arr(1), None);
}
