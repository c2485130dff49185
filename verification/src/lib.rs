//! Write path of a log-structured-merge key-value store: an in-memory
//! sorted index (a skip list used as the memtable) and the block encoder
//! that persists its contents into sorted-string-table segments.
#![allow(non_snake_case)]

pub mod block;
pub mod filesystem;
pub mod lsm_error;
pub mod memtable;
pub mod varint;

use vstd::prelude::*;

verus! {

/// Little-endian base-128 encoding of `n`: seven payload bits per byte,
/// high bit set on every byte but the last.
pub open spec fn leb128_seq(n: nat) -> Seq<u8>
    decreases n,
{
    if n < 128 {
        seq![n as u8]
    } else {
        seq![((n % 128) + 128) as u8] + leb128_seq(n / 128)
    }
}

} // verus!
