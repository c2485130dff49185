use lsm_core::block::{decode_entry, varint_len, Block};
use lsm_core::lsm_error::DataStoreError;

const BLOCK_SIZE: usize = 128 * 1024;

#[test]
fn insert_one_key_value() {
    let mut b = Block::new(BLOCK_SIZE);
    assert!(b.add(b"key", b"value").is_ok());
    b.finish();
    assert_eq!(b.current_pos_, 10);
    let expected_bytes = [&[0x03 as u8, 0x05 as u8] as &[u8], b"keyvalue"].concat();
    let actual_bytes: &[u8] = &(b.data_)[0..b.current_pos_];
    assert_eq!(expected_bytes, actual_bytes);
}

#[test]
fn insert_longer_keys_and_values() {
    let mut b = Block::new(BLOCK_SIZE);
    let test_str_129 = ["c"; 129].join("");
    // a value longer than 128 bytes, so that its length takes two bytes
    // when encoded as a varint
    let value = test_str_129.as_bytes();
    assert!(b.add(b"key", value).is_ok());
    let mut expected_len = 3 /*key chars*/ + 129 /*value chars*/
        + 1 /*keylen as varint*/ + 2 /*valuelen as varint*/;
    assert_eq!(b.current_pos_, expected_len);
    let mut expected_bytes = [&[0x03 as u8, 0x81 as u8, 0x01 as u8], b"key", value].concat();
    let mut actual_bytes = &(b.data_)[0..b.current_pos_];
    assert_eq!(expected_bytes, actual_bytes);
    // a 129-character key as well
    let key = test_str_129.as_bytes();
    assert!(b.add(key, value).is_ok());
    expected_len += 129 /*key chars*/ + 129 /*value chars*/
        + 2 + 2 /*both lengths as varints*/;
    assert_eq!(b.current_pos_, expected_len);
    expected_bytes = [
        &expected_bytes[0..],
        &[0x81 as u8, 0x01 as u8, 0x81 as u8, 0x01 as u8],
        key,
        value,
    ]
    .concat();
    actual_bytes = &(b.data_)[0..b.current_pos_];
    assert_eq!(expected_bytes, actual_bytes);
}

#[test]
fn add_rejects_entry_past_capacity() {
    // "key" + "value" encodes to 10 bytes; a 9-byte block cannot take it
    let mut b = Block::new(9);
    let r = b.add(b"key", b"value");
    assert!(matches!(r, Err(DataStoreError::BlockFull)));
    assert_eq!(b.current_pos_, 0);
    // a block of exactly 10 bytes takes it, and then nothing more
    let mut b2 = Block::new(10);
    assert!(b2.add(b"key", b"value").is_ok());
    assert!(matches!(b2.add(b"", b""), Err(DataStoreError::BlockFull)));
    assert_eq!(b2.current_pos_, 10);
}

#[test]
fn entry_round_trip() {
    let mut b = Block::new(BLOCK_SIZE);
    assert!(b.add(b"apple", b"red").is_ok());
    assert!(b.add(b"banana", b"yellow").is_ok());
    let bytes = b.finish();
    let (k1, v1, next) = decode_entry(&bytes).expect("first entry decodes");
    assert_eq!(k1, b"apple".to_vec());
    assert_eq!(v1, b"red".to_vec());
    let (k2, v2, end) = decode_entry(&bytes[next..]).expect("second entry decodes");
    assert_eq!(k2, b"banana".to_vec());
    assert_eq!(v2, b"yellow".to_vec());
    assert_eq!(next + end, bytes.len());
}

#[test]
fn long_value_round_trip() {
    let mut b = Block::new(BLOCK_SIZE);
    let value = vec![b'c'; 129];
    assert!(b.add(b"key", &value).is_ok());
    let bytes = b.finish();
    // the 129-byte length encodes as the two-byte varint 0x81 0x01
    assert_eq!(&bytes[1..3], &[0x81, 0x01]);
    let (k, v, used) = decode_entry(&bytes).expect("entry decodes");
    assert_eq!(k, b"key".to_vec());
    assert_eq!(v, value);
    assert_eq!(used, bytes.len());
}

#[test]
fn decode_entry_rejects_truncated_input() {
    let mut b = Block::new(BLOCK_SIZE);
    assert!(b.add(b"key", b"value").is_ok());
    let bytes = b.finish();
    // dropping the last byte leaves the value shorter than its prefix says
    assert!(decode_entry(&bytes[0..bytes.len() - 1]).is_none());
    assert!(decode_entry(&[]).is_none());
    assert!(decode_entry(&[0x03]).is_none());
}

#[test]
fn varint_len_matches_encoding() {
    assert_eq!(varint_len(0), 1);
    assert_eq!(varint_len(127), 1);
    assert_eq!(varint_len(128), 2);
    assert_eq!(varint_len(129), 2);
    assert_eq!(varint_len(16383), 2);
    assert_eq!(varint_len(16384), 3);
    assert_eq!(varint_len(u64::MAX), 10);
}

#[test]
fn finish_freezes_written_prefix() {
    let mut b = Block::new(BLOCK_SIZE);
    assert!(b.add(b"k", b"v").is_ok());
    let bytes = b.finish();
    assert!(b.finished_);
    assert_eq!(bytes, b.data_);
    assert_eq!(b.current_pos_, bytes.len());
}
