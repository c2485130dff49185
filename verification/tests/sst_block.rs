use std::cell::RefCell;
use std::collections::HashMap;

use lsm_core::block::Block;
use lsm_core::filesystem::FileSystem;
use lsm_core::lsm_error::DataStoreError;

const BLOCK_SIZE: usize = 128 * 1024;

/// An in-memory tree of files standing in for the local filesystem.
struct MemFileSystem {
    files: RefCell<HashMap<String, Vec<u8>>>,
}

impl MemFileSystem {
    fn new() -> MemFileSystem {
        MemFileSystem { files: RefCell::new(HashMap::new()) }
    }
}

impl FileSystem for MemFileSystem {
    fn create(&self, path: &str) -> Result<(), DataStoreError> {
        let mut files = self.files.borrow_mut();
        if files.contains_key(path) {
            return Err(DataStoreError::Unknown);
        }
        files.insert(path.to_string(), Vec::new());
        Ok(())
    }

    fn append(&self, path: &str, buffer: &[u8]) -> Result<(), DataStoreError> {
        let mut files = self.files.borrow_mut();
        match files.get_mut(path) {
            Some(contents) => {
                contents.extend_from_slice(buffer);
                Ok(())
            }
            None => Err(DataStoreError::Unknown),
        }
    }

    fn read(&self, path: &str, buffer: &mut Vec<u8>) -> Result<usize, DataStoreError> {
        let files = self.files.borrow();
        match files.get(path) {
            Some(contents) => {
                let n = contents.len().min(buffer.len());
                buffer[..n].copy_from_slice(&contents[..n]);
                Ok(n)
            }
            None => Err(DataStoreError::Unknown),
        }
    }

    fn seek_read(
        &self,
        path: &str,
        offset: u64,
        buffer: &mut Vec<u8>,
    ) -> Result<usize, DataStoreError> {
        let files = self.files.borrow();
        match files.get(path) {
            Some(contents) => {
                let start = (offset as usize).min(contents.len());
                let n = (contents.len() - start).min(buffer.len());
                buffer[..n].copy_from_slice(&contents[start..start + n]);
                Ok(n)
            }
            None => Err(DataStoreError::Unknown),
        }
    }

    fn close(&self) -> Result<(), DataStoreError> {
        Ok(())
    }
}

#[test]
fn block_insert_one_key_value() {
    let mut b = Block::new(BLOCK_SIZE);
    assert!(b.add(b"key", b"value").is_ok());
    b.finish();
    assert_eq!(b.current_pos_, 10);
    let expected_bytes = [&[0x03 as u8, 0x05 as u8] as &[u8], b"keyvalue"].concat();
    let actual_bytes: &[u8] = &(b.data_)[0..b.current_pos_];
    assert_eq!(expected_bytes, actual_bytes);
}

#[test]
fn block_insert_longer_keys_and_values() {
    let mut b = Block::new(BLOCK_SIZE);
    let test_str_129 = ["c"; 129].join("");
    // a value longer than 128 bytes, so that its length takes two bytes
    // when encoded as a varint
    let value = test_str_129.as_bytes();
    assert!(b.add(b"key", value).is_ok());
    let mut expected_len = 3 /*key chars*/ + 129 /*value chars*/
        + 1 /*keylen as varint*/ + 2 /*valuelen as varint*/;
    assert_eq!(b.current_pos_, expected_len);
    let mut expected_bytes = [&[0x03 as u8, 0x81 as u8, 0x01 as u8], b"key", value].concat();
    let mut actual_bytes = &(b.data_)[0..b.current_pos_];
    assert_eq!(expected_bytes, actual_bytes);
    // a 129-character key as well
    let key = test_str_129.as_bytes();
    assert!(b.add(key, value).is_ok());
    expected_len += 129 /*key chars*/ + 129 /*value chars*/
        + 2 + 2 /*both lengths as varints*/;
    assert_eq!(b.current_pos_, expected_len);
    expected_bytes = [
        &expected_bytes[0..],
        &[0x81 as u8, 0x01 as u8, 0x81 as u8, 0x01 as u8],
        key,
        value,
    ]
    .concat();
    actual_bytes = &(b.data_)[0..b.current_pos_];
    assert_eq!(expected_bytes, actual_bytes);
}

#[test]
fn test_write_to_sst() {
    let mut b = Block::new(BLOCK_SIZE);
    assert!(b.add(b"key", b"value").is_ok());
    b.finish();
    // create the sst file
    let filesystem = MemFileSystem::new();
    let path = "test.sst";
    assert!(filesystem.create(path).is_ok());
    assert!(b.write_to_sst(&filesystem, path).is_ok());
    let mut buf: Vec<u8> = vec![0; 20];
    let expected_bytes = [&[0x03 as u8, 0x05 as u8] as &[u8], b"keyvalue"].concat();
    let expected_len = expected_bytes.len();
    let actual_len = filesystem.read(path, &mut buf).unwrap();
    assert_eq!(
        actual_len, expected_len,
        "Expected len is {}, but actual len got is {}",
        actual_len, expected_len
    );
    assert_eq!(
        buf[0..expected_len],
        expected_bytes,
        "Bytes written to SST file differs than expected"
    );
}

#[test]
fn write_to_sst_appends_byte_for_byte() {
    let mut b = Block::new(BLOCK_SIZE);
    assert!(b.add(b"a", b"1").is_ok());
    let bytes = b.finish();
    let filesystem = MemFileSystem::new();
    let path = "segment.sst";
    assert!(filesystem.create(path).is_ok());
    // persisting twice re-appends the same finished range
    assert!(b.write_to_sst(&filesystem, path).is_ok());
    assert!(b.write_to_sst(&filesystem, path).is_ok());
    let mut buf: Vec<u8> = vec![0; 64];
    let n = filesystem.read(path, &mut buf).unwrap();
    assert_eq!(n, 2 * bytes.len());
    assert_eq!(&buf[0..bytes.len()], &bytes[..]);
    assert_eq!(&buf[bytes.len()..n], &bytes[..]);
}
