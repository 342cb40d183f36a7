//! Merkle airdrop tree core.
//!
//! Builds a binary Merkle tree over a set of token-airdrop claims, produces a
//! per-claimant inclusion proof, and encodes the whole tree as a compact
//! binary blob. The pipeline runs: CSV bytes -> raw claim rows -> canonical
//! fixed-point claim records -> Merkle tree (root + proofs) -> blob bytes.

use vstd::prelude::*;

mod amount;
mod batch;
mod csv_entry;
mod blob;
mod clawback;
mod error;
mod hashing;
mod merkle;
mod order;
mod tree_node;

pub use amount::{UiAmount, UiAmountView, ui_amount_to_token_amount, MAX_DECIMALS};
pub use csv_entry::{CsvEntry, CsvEntryView, effective_unlocked, parse_csv_spec, apply_legacy};
pub use hashing::{sha256_of, pubkey_decode};
pub use merkle::{AirdropMerkleTree, TreeView, combine, fold_proof, proof_verifies, next_level, root_from, root_of, leaf_hashes, node_views, has_duplicate, lemma_combine_comm, lemma_fold_push, lemma_root_order_independent, verify};
pub use order::{lex_le, lex_leq, hash_le, hash_eq};
pub use tree_node::{TreeNode, TreeNodeView, hashes_view, leaf_bytes, spec_node_hash};
pub use batch::{plan_action, plan_file, last_dot, bin_extension, dot_bin};
pub use clawback::{ErrorCode, MerkleDistributor, handle_set_clawback_start_ts, SECONDS_PER_DAY};
pub use blob::{encode_tree, decode_tree, read_blob, wf_tree_view, wf_node_view, lemma_blob_round_trip, BLOB_VERSION};
pub use error::MerkleTreeError;

verus! {

/// The number of bytes in a claimant key and in every tree hash.
pub const HASH_LEN: usize = 32;

} // verus!
