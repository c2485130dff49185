//! Error taxonomy of the store's write path.
use vstd::prelude::*;

verus! {

/// Errors surfaced by the data store.
#[derive(Debug)]
pub enum DataStoreError {
    /// Reserved for future segment-header validation.
    InvalidHeader { expected: String, found: String },
    /// Wraps a filesystem collaborator failure.
    IOError(std::io::Error),
    /// An `add` would exceed the block's configured capacity.
    BlockFull,
    /// Fallback for all other cases.
    Unknown,
}

#[verifier::external_type_specification]
#[verifier::external_body]
pub struct ExIoError(std::io::Error);

} // verus!
