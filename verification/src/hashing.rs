//! Trusted boundary to the hashing and key-decoding primitives.
//!
//! The tree commits to its leaves with a collision-resistant 256-bit hash
//! (SHA-256) and identifies claimants by 32-byte keys decoded from base58
//! strings. Both computations come from an outside crate; their results are
//! given names here and everything built on top of them is verified against
//! those names.

use vstd::prelude::*;

verus! {

/// The SHA-256 digest of a byte sequence: a pure function of the input bytes.
pub uninterp spec fn sha256_of(data: Seq<u8>) -> Seq<u8>;

/// The 32-byte key encoded by a base58 byte string, or `None` when the bytes
/// are not the base58 form of exactly 32 bytes: a pure function of the input.
pub uninterp spec fn pubkey_decode(s: Seq<u8>) -> Option<Seq<u8>>;

/// Relies on `solana_program::hash::hashv`: the SHA-256 digest of the
/// concatenated input slices, 32 bytes long, depending on the input bytes
/// alone.
#[verifier::external_body]
pub(crate) fn hash_bytes(data: &Vec<u8>) -> (r: [u8; 32])
    ensures
        r@ == sha256_of(data@),
{
    solana_program::hash::hashv(&[data.as_slice()]).to_bytes()
}

/// Relies on `solana_program::pubkey::Pubkey::from_str`: base58-decodes the
/// string and succeeds exactly when the decoded form is 32 bytes; the result
/// depends on the input bytes alone. Bytes that are not UTF-8 are not the
/// base58 form of anything.
#[verifier::external_body]
pub(crate) fn decode_claimant(s: &Vec<u8>) -> (r: Option<[u8; 32]>)
    ensures
        r is Some <==> pubkey_decode(s@) is Some,
        (r matches Some(k) ==> pubkey_decode(s@) == Some(k@)),
{
    match core::str::from_utf8(s.as_slice()) {
        Ok(text) => match <solana_program::pubkey::Pubkey as core::str::FromStr>::from_str(text) {
            Ok(key) => Some(key.to_bytes()),
            Err(_) => None,
        },
        Err(_) => None,
    }
}

} // verus!
