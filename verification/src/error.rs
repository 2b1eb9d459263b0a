//! The failures that the store reports to its callers.

use vstd::prelude::*;

verus! {

/// A failure of a store operation. All of them are returned to the
/// caller; none ends the process. A block whose bytes do not hash to its
/// name is no failure: verification answers `false` for it.
#[derive(Clone, Copy, Debug, PartialEq, Eq, Structural)]
pub enum StoreError {
    /// No block or tag is stored under the name asked for.
    NotFound,
    /// The bytes are not the encoding of a block.
    CorruptEncoding,
    /// A key is unusable, or encryption or decryption failed.
    CryptoError,
    /// The storage failed in another way than by a missing entry.
    IoError,
    /// The chain of ancestors is longer than the verifier's bound.
    DepthExceeded,
}

impl StoreError {
    /// A short human-readable description of the failure.
    pub fn message(&self) -> (text: &'static str)
        ensures
            text@ == match *self {
                StoreError::NotFound => "not found"@,
                StoreError::CorruptEncoding => "corrupt encoding"@,
                StoreError::CryptoError => "crypto error"@,
                StoreError::IoError => "i/o error"@,
                StoreError::DepthExceeded => "depth exceeded"@,
            },
    {
        match self {
            StoreError::NotFound => "not found",
            StoreError::CorruptEncoding => "corrupt encoding",
            StoreError::CryptoError => "crypto error",
            StoreError::IoError => "i/o error",
            StoreError::DepthExceeded => "depth exceeded",
        }
    }
}

} // verus!
