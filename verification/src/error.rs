//! The error type shared by every operation of the store.

use vstd::prelude::*;

verus! {

/// Why an operation of the store failed.
#[derive(Clone, Copy, Debug, PartialEq, Eq, Structural)]
pub enum IndexError {
    /// The underlying table refused the read or the write.
    StoreError,
    /// The bytes stored under a slot's key are not an encoding of the slot's type.
    DecodeError,
    /// The value handed in could not be encoded; nothing was written.
    EncodeError,
}

} // verus!
