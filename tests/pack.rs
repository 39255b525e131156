use minirt::pack::{pack, unpack};
use std::collections::HashMap;

#[test]
fn test_pack() {
    let mut input = HashMap::new();
    input.insert("input1".to_string(), (0..42).map(|i| i).collect());
    input.insert("input2".to_string(), (0..42).map(|i| i + 2).collect());
    input.insert("input3".to_string(), (0..42).map(|i| i * 2).collect());
    let output = unpack(pack(input.clone())).unwrap();

    assert_eq!(input, output);
}

#[test]
fn pack_writes_one_record_exactly() {
    let mut input = HashMap::new();
    input.insert("ab".to_string(), vec![7u8, 8, 9]);
    assert_eq!(pack(input), vec![2, 0, 0, 0, b'a', b'b', 3, 0, 0, 0, 7, 8, 9]);
}

#[test]
fn pack_of_empty_map_is_empty() {
    assert_eq!(pack(HashMap::new()), Vec::<u8>::new());
}

#[test]
fn unpack_of_empty_buffer_is_empty_map() {
    assert_eq!(unpack(vec![]), Some(HashMap::new()));
}

#[test]
fn unpack_rejects_truncated_records() {
    // shorter than the two length fields
    assert_eq!(unpack(vec![1, 0, 0, 0, b'a', 0, 0]), None);
    // key longer than the buffer
    assert_eq!(unpack(vec![9, 0, 0, 0, b'a', 0, 0, 0, 0]), None);
    // value longer than the buffer
    assert_eq!(unpack(vec![1, 0, 0, 0, b'a', 2, 0, 0, 0, 5]), None);
    // a whole record followed by a partial one
    assert_eq!(unpack(vec![1, 0, 0, 0, b'a', 0, 0, 0, 0, 1]), None);
}

#[test]
fn unpack_keeps_the_last_value_of_a_repeated_key() {
    let bytes = vec![1, 0, 0, 0, b'k', 1, 0, 0, 0, 1, 1, 0, 0, 0, b'k', 1, 0, 0, 0, 2];
    let m = unpack(bytes).unwrap();
    assert_eq!(m.len(), 1);
    assert_eq!(m.get("k"), Some(&vec![2u8]));
}

#[test]
fn unpack_reads_invalid_utf8_keys_lossily() {
    let bytes = vec![2, 0, 0, 0, b'a', 0xff, 1, 0, 0, 0, 3];
    let m = unpack(bytes).unwrap();
    assert_eq!(m.get("a\u{FFFD}"), Some(&vec![3u8]));
}

#[test]
fn unpack_reads_multibyte_keys() {
    let key = "é✓";
    let mut bytes = vec![key.len() as u8, 0, 0, 0];
    bytes.extend_from_slice(key.as_bytes());
    bytes.extend_from_slice(&[0, 0, 0, 0]);
    let m = unpack(bytes).unwrap();
    assert_eq!(m.get(key), Some(&vec![]));
}
