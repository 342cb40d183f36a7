//! Error taxonomy for the airdrop tree pipeline.

use vstd::prelude::*;

verus! {

/// Everything that can go wrong while turning a CSV into a tree blob.
#[derive(Debug, Clone, Copy, PartialEq, Eq, Structural)]
pub enum MerkleTreeError {
    /// The CSV bytes are unreadable or a row does not parse.
    MalformedInputError,
    /// A pubkey string does not decode to a 32-byte key.
    InvalidClaimantKeyError,
    /// Amount conversion overflowed the 64-bit base-unit domain.
    ArithmeticError,
    /// Two claim records share the same claimant key.
    DuplicateClaimantError,
    /// No records were supplied, so no root can be defined.
    EmptyTreeError,
    /// A blob is malformed or truncated.
    CorruptBlobError,
}

impl MerkleTreeError {
    /// A short human-readable name for the error.
    pub fn describe(&self) -> &'static str {
        match self {
            MerkleTreeError::MalformedInputError => "malformed input",
            MerkleTreeError::InvalidClaimantKeyError => "invalid claimant key",
            MerkleTreeError::ArithmeticError => "arithmetic overflow",
            MerkleTreeError::DuplicateClaimantError => "duplicate claimant",
            MerkleTreeError::EmptyTreeError => "empty tree",
            MerkleTreeError::CorruptBlobError => "corrupt blob",
        }
    }
}

} // verus!
