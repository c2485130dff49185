//! The filesystem collaborator surface consumed by the block encoder.
//!
//! Implementations live outside the verified core: a real directory tree
//! for the store, or an in-memory tree for tests.  Nothing is proved of
//! an implementation; the encoder states what it hands over, not what a
//! collaborator does with it.
use crate::lsm_error::DataStoreError;
use vstd::prelude::*;

verus! {

/// File primitives the store delegates persistence to.
pub trait FileSystem {
    /// Creates the file; fails if the path already exists.
    fn create(&self, path: &str) -> Result<(), DataStoreError>;

    /// Opens for append, writes the whole buffer, flushes.
    fn append(&self, path: &str, buffer: &[u8]) -> Result<(), DataStoreError>;

    /// Reads from the start of the file into the buffer's current extent,
    /// returning how many bytes were read.
    fn read(&self, path: &str, buffer: &mut Vec<u8>) -> Result<usize, DataStoreError>;

    /// Reads from a byte offset; returns 0 with no error at or beyond
    /// end-of-file.
    fn seek_read(&self, path: &str, offset: u64, buffer: &mut Vec<u8>) -> Result<
        usize,
        DataStoreError,
    >;

    fn close(&self) -> Result<(), DataStoreError>;
}

} // verus!
