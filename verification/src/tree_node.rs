//! Canonical claim records: the leaves of the Merkle tree.

use vstd::prelude::*;

use crate::amount::{ui_amount_to_token_amount, UiAmount, MAX_DECIMALS};
use crate::csv_entry::{effective_unlocked, CsvEntry};
use crate::error::MerkleTreeError;
use crate::hashing::{hash_bytes, pubkey_decode, sha256_of, decode_claimant};

verus! {

/// View of a sequence of 32-byte hashes as a sequence of byte sequences.
pub open spec fn hashes_view(s: Seq<[u8; 32]>) -> Seq<Seq<u8>> {
    s.map_values(|h: [u8; 32]| h@)
}

/// The bytes a leaf commits to: the claimant key followed by the
/// little-endian encodings of the unlocked and locked amounts.
pub open spec fn leaf_bytes(claimant: Seq<u8>, unlocked: u64, locked: u64) -> Seq<u8> {
    claimant + vstd::bytes::spec_u64_to_le_bytes(unlocked) + vstd::bytes::spec_u64_to_le_bytes(
        locked,
    )
}

/// Mathematical view of a [`TreeNode`].
pub struct TreeNodeView {
    pub claimant: Seq<u8>,
    pub amount_unlocked: u64,
    pub amount_locked: u64,
    pub proof: Option<Seq<Seq<u8>>>,
}

/// The canonical hash of a leaf record.
pub open spec fn spec_node_hash(n: TreeNodeView) -> Seq<u8> {
    sha256_of(leaf_bytes(n.claimant, n.amount_unlocked, n.amount_locked))
}

/// The claim information for one account: the canonical leaf record.
#[derive(Debug)]
pub struct TreeNode {
    /// Pubkey of the claimant, decoded to its 32-byte form.
    pub claimant: [u8; 32],
    /// Amount that the claimant can claim immediately, in base units.
    pub amount_unlocked: u64,
    /// Amount that the claimant can claim through vesting, in base units.
    pub amount_locked: u64,
    /// Claimant's proof of inclusion in the Merkle tree, attached by the
    /// tree builder.
    pub proof: Option<Vec<[u8; 32]>>,
}

impl View for TreeNode {
    type V = TreeNodeView;

    open spec fn view(&self) -> TreeNodeView {
        TreeNodeView {
            claimant: self.claimant@,
            amount_unlocked: self.amount_unlocked,
            amount_locked: self.amount_locked,
            proof: match self.proof {
                Some(p) => Some(hashes_view(p@)),
                None => None,
            },
        }
    }
}

impl TreeNode {
    /// The canonical leaf hash: SHA-256 over the claimant key and the
    /// little-endian encodings of both amounts.
    pub fn hash(&self) -> (r: [u8; 32])
        ensures
            r@ == spec_node_hash(self@),
    {
        let mut data: Vec<u8> = Vec::new();
        let mut i: usize = 0;
        while i < 32
            invariant
                i <= 32,
                data@ == self.claimant@.take(i as int),
            decreases 32 - i,
        {
            data.push(self.claimant[i]);
            assert(self.claimant@.take(i + 1) == self.claimant@.take(i as int).push(
                self.claimant@[i as int],
            ));
            i = i + 1;
        }
        assert(data@ == self.claimant@);
        let mut unlocked_bytes = vstd::bytes::u64_to_le_bytes(self.amount_unlocked);
        data.append(&mut unlocked_bytes);
        let mut locked_bytes = vstd::bytes::u64_to_le_bytes(self.amount_locked);
        data.append(&mut locked_bytes);
        assert(data@ == leaf_bytes(self.claimant@, self.amount_unlocked, self.amount_locked));
        hash_bytes(&data)
    }

    /// Total amount for this claimant (unlocked + locked).
    pub fn amount(&self) -> (r: u64)
        requires
            self.amount_unlocked + self.amount_locked <= u64::MAX,
        ensures
            r == self.amount_unlocked + self.amount_locked,
    {
        self.amount_unlocked + self.amount_locked
    }

    /// Unlocked amount for this claimant.
    pub fn amount_unlocked(&self) -> (r: u64)
        ensures
            r == self@.amount_unlocked,
    {
        self.amount_unlocked
    }

    /// Locked amount for this claimant.
    pub fn amount_locked(&self) -> (r: u64)
        ensures
            r == self@.amount_locked,
    {
        self.amount_locked
    }

    /// Normalizes one raw CSV row into a canonical claim record: decodes the
    /// pubkey string to its 32-byte key, applies the legacy single-amount
    /// fallback, and converts both UI amounts to base units.
    pub fn from_csv(entry: CsvEntry, decimals: u32) -> (r: Result<TreeNode, MerkleTreeError>)
        requires
            entry@.wf(),
        ensures
            r is Ok <==> (pubkey_decode(entry.pubkey@) is Some && decimals <= MAX_DECIMALS
                && effective_unlocked(entry@).base_units(decimals as nat) <= u64::MAX
                && entry@.amount_locked.base_units(decimals as nat) <= u64::MAX),
            r matches Ok(n) ==> {
                &&& n@.claimant == pubkey_decode(entry.pubkey@).unwrap()
                &&& n@.amount_unlocked == effective_unlocked(entry@).base_units(decimals as nat)
                &&& n@.amount_locked == entry@.amount_locked.base_units(decimals as nat)
                &&& n@.proof is None
            },
            pubkey_decode(entry.pubkey@) is None ==> r == Err::<TreeNode, MerkleTreeError>(
                MerkleTreeError::InvalidClaimantKeyError,
            ),
            (pubkey_decode(entry.pubkey@) is Some && r is Err) ==> r == Err::<
                TreeNode,
                MerkleTreeError,
            >(MerkleTreeError::ArithmeticError),
    {
        let claimant: [u8; 32] = match decode_claimant(&entry.pubkey) {
            Some(k) => k,
            None => {
                return Err(MerkleTreeError::InvalidClaimantKeyError);
            },
        };
        let use_legacy: bool = match &entry.amount {
            Some(_) => entry.amount_unlocked.is_zero() && entry.amount_locked.is_zero(),
            None => false,
        };
        let unlocked_ui: &UiAmount = if use_legacy {
            match &entry.amount {
                Some(a) => a,
                None => &entry.amount_unlocked,
            }
        } else {
            &entry.amount_unlocked
        };
        assert(unlocked_ui@ == effective_unlocked(entry@));
        let amount_unlocked: u64 = match ui_amount_to_token_amount(unlocked_ui, decimals) {
            Ok(v) => v,
            Err(e) => {
                return Err(e);
            },
        };
        let amount_locked: u64 = match ui_amount_to_token_amount(&entry.amount_locked, decimals) {
            Ok(v) => v,
            Err(e) => {
                return Err(e);
            },
        };
        Ok(TreeNode { claimant, amount_unlocked, amount_locked, proof: None })
    }
}

} // verus!
