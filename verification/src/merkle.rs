//! The binary Merkle tree over claim records.
//!
//! Hashing discipline, fixed once for interoperability with independent
//! verifiers:
//! - leaf hash: SHA-256 over claimant key and little-endian amounts (see
//!   [`crate::tree_node::spec_node_hash`]);
//! - leaves are sorted by leaf hash before pairing, so the root is a pure
//!   function of the multiset of leaf hashes (insensitive to input order);
//! - an internal node is the SHA-256 of its two children, lexicographically
//!   smaller child first, so proof replay needs no side information;
//! - an odd node at the end of a level is promoted unchanged to the next
//!   level.

use vstd::prelude::*;
use vstd::relations::sorted_by;
use vstd::seq_lib::{lemma_multiset_commutative, lemma_sorted_unique};

use crate::error::MerkleTreeError;
use crate::hashing::{hash_bytes, sha256_of};
use crate::order::{hash_eq, hash_le, lex_le, lex_leq};
use crate::tree_node::{hashes_view, spec_node_hash, TreeNode, TreeNodeView};

verus! {

/// The hash of an internal node: SHA-256 of the two children concatenated,
/// lexicographically smaller child first.
pub open spec fn combine(a: Seq<u8>, b: Seq<u8>) -> Seq<u8> {
    if lex_le(a, b) {
        sha256_of(a + b)
    } else {
        sha256_of(b + a)
    }
}

/// The child-ordering rule makes combination insensitive to sides.
pub proof fn lemma_combine_comm(a: Seq<u8>, b: Seq<u8>)
    ensures
        combine(a, b) == combine(b, a),
{
    crate::order::lemma_lex_le_connected(a, b);
    if lex_le(a, b) && lex_le(b, a) {
        crate::order::lemma_lex_le_antisym(a, b);
    }
}

/// Replays a proof: combines the running hash with each sibling in
/// leaf-to-root order.
pub open spec fn fold_proof(h: Seq<u8>, proof: Seq<Seq<u8>>) -> Seq<u8>
    decreases proof.len(),
{
    if proof.len() == 0 {
        h
    } else {
        fold_proof(combine(h, proof[0]), proof.skip(1))
    }
}

/// Appending one sibling to a proof combines it onto the replayed hash.
pub proof fn lemma_fold_push(h: Seq<u8>, proof: Seq<Seq<u8>>, x: Seq<u8>)
    ensures
        fold_proof(h, proof.push(x)) == combine(fold_proof(h, proof), x),
    decreases proof.len(),
{
    if proof.len() == 0 {
        assert(proof.push(x)[0] == x);
        assert(proof.push(x).skip(1) =~= Seq::<Seq<u8>>::empty());
        assert(fold_proof(h, proof.push(x)) == fold_proof(combine(h, x), proof.push(x).skip(1)));
        assert(fold_proof(combine(h, x), proof.push(x).skip(1)) == combine(h, x));
        assert(fold_proof(h, proof) == h);
    } else {
        assert(proof.push(x)[0] == proof[0]);
        assert(proof.push(x).skip(1) =~= proof.skip(1).push(x));
        lemma_fold_push(combine(h, proof[0]), proof.skip(1), x);
        assert(fold_proof(h, proof.push(x)) == fold_proof(
            combine(h, proof[0]),
            proof.skip(1).push(x),
        ));
        assert(fold_proof(h, proof) == fold_proof(combine(h, proof[0]), proof.skip(1)));
    }
}

/// A proof for a record checks out against a root when replaying it from the
/// record's leaf hash ends at the root.
pub open spec fn proof_verifies(root: Seq<u8>, n: TreeNodeView, proof: Seq<Seq<u8>>) -> bool {
    fold_proof(spec_node_hash(n), proof) == root
}

/// One level up: adjacent pairs are combined; a final odd node is promoted.
pub open spec fn next_level(l: Seq<Seq<u8>>) -> Seq<Seq<u8>> {
    Seq::new((l.len() + 1) / 2, |i: int| if 2 * i + 1 < l.len() {
        combine(l[2 * i], l[2 * i + 1])
    } else {
        l[2 * i]
    })
}

/// The root obtained by repeatedly building levels from a non-empty base.
pub open spec fn root_from(l: Seq<Seq<u8>>) -> Seq<u8>
    recommends
        l.len() >= 1,
    decreases l.len(),
{
    if l.len() <= 1 {
        l[0]
    } else {
        root_from(next_level(l))
    }
}

/// The leaf hashes of a record sequence, in record order.
pub open spec fn leaf_hashes(records: Seq<TreeNodeView>) -> Seq<Seq<u8>> {
    records.map_values(|n: TreeNodeView| spec_node_hash(n))
}

/// The canonical root of a non-empty multiset of leaf hashes: levels built
/// over the leaves in sorted order.
pub open spec fn root_of(leaves: Seq<Seq<u8>>) -> Seq<u8>
    recommends
        leaves.len() >= 1,
{
    root_from(leaves.sort_by(lex_leq()))
}

/// Two records somewhere in the sequence share a claimant key.
pub open spec fn has_duplicate(records: Seq<TreeNodeView>) -> bool {
    exists|i: int, j: int|
        #![trigger records[i], records[j]]
        0 <= i < j < records.len() && records[i].claimant == records[j].claimant
}

/// The views of a sequence of records.
pub open spec fn node_views(records: Seq<TreeNode>) -> Seq<TreeNodeView> {
    records.map_values(|n: TreeNode| n@)
}

/// Inserting into a sequence inserts into its multiset.
proof fn lemma_insert_to_multiset(s: Seq<Seq<u8>>, k: int, x: Seq<u8>)
    requires
        0 <= k <= s.len(),
    ensures
        s.insert(k, x).to_multiset() =~= s.to_multiset().insert(x),
{
    broadcast use vstd::seq_lib::group_to_multiset_ensures;
    broadcast use vstd::multiset::group_multiset_axioms;

    let pre = s.subrange(0, k);
    let post = s.subrange(k, s.len() as int);
    assert(s =~= pre + post);
    lemma_multiset_commutative(pre, post);
    lemma_multiset_commutative(pre.push(x), post);
    assert(pre.push(x).to_multiset() =~= pre.to_multiset().insert(x));
    assert(s.insert(k, x) == pre.push(x) + post);
}

/// Pushes the 32 bytes of a hash onto a byte vector.
pub(crate) fn push_hash(data: &mut Vec<u8>, h: &[u8; 32])
    ensures
        final(data)@ == old(data)@ + h@,
{
    let mut i: usize = 0;
    while i < 32
        invariant
            i <= 32,
            data@ == old(data)@ + h@.take(i as int),
        decreases 32 - i,
    {
        data.push(h[i]);
        assert(h@.take(i + 1) == h@.take(i as int).push(h@[i as int]));
        assert(old(data)@ + h@.take(i + 1) == (old(data)@ + h@.take(i as int)).push(
            h@[i as int],
        ));
        i = i + 1;
    }
    assert(h@.take(32) == h@);
}

/// The hash of an internal node, children ordered canonically.
pub(crate) fn combine_hashes(a: &[u8; 32], b: &[u8; 32]) -> (r: [u8; 32])
    ensures
        r@ == combine(a@, b@),
{
    let mut data: Vec<u8> = Vec::new();
    if hash_le(a, b) {
        push_hash(&mut data, a);
        push_hash(&mut data, b);
        assert(data@ =~= a@ + b@);
    } else {
        push_hash(&mut data, b);
        push_hash(&mut data, a);
        assert(data@ =~= b@ + a@);
    }
    hash_bytes(&data)
}

/// The position before the first element greater than `x` in a sorted run.
fn find_insert_pos(out: &Vec<[u8; 32]>, x: &[u8; 32]) -> (r: usize)
    ensures
        r <= out@.len(),
        forall|m: int| 0 <= m < r ==> lex_le(out@[m]@, x@),
        r < out@.len() ==> !lex_le(out@[r as int]@, x@),
{
    let mut k: usize = 0;
    while k < out.len()
        invariant
            k <= out@.len(),
            forall|m: int| 0 <= m < k ==> lex_le(out@[m]@, x@),
        decreases out@.len() - k,
    {
        if !hash_le(&out[k], x) {
            return k;
        }
        k = k + 1;
    }
    k
}

/// Sorts hashes into the canonical (lexicographic) leaf order.
fn sort_hashes(v: &Vec<[u8; 32]>) -> (r: Vec<[u8; 32]>)
    ensures
        r@.len() == v@.len(),
        sorted_by(hashes_view(r@), lex_leq()),
        hashes_view(r@).to_multiset() == hashes_view(v@).to_multiset(),
{
    let mut out: Vec<[u8; 32]> = Vec::new();
    let mut i: usize = 0;
    assert(hashes_view(out@) =~= hashes_view(v@.take(0)));
    while i < v.len()
        invariant
            i <= v@.len(),
            out@.len() == i,
            sorted_by(hashes_view(out@), lex_leq()),
            hashes_view(out@).to_multiset() == hashes_view(v@.take(i as int)).to_multiset(),
        decreases v@.len() - i,
    {
        let x: [u8; 32] = v[i];
        let k: usize = find_insert_pos(&out, &x);
        let ghost old_out: Seq<[u8; 32]> = out@;
        out.insert(k, x);
        proof {
            let leq = lex_leq();
            let ov = hashes_view(old_out);
            let nv = hashes_view(out@);
            assert(nv =~= ov.insert(k as int, x@)) by {
                old_out.insert_ensures(k as int, x);
                ov.insert_ensures(k as int, x@);
            }
            // sortedness of the new run
            assert forall|p: int, q: int| 0 <= p < q < nv.len() implies #[trigger] leq(
                nv[p],
                nv[q],
            ) by {
                ov.insert_ensures(k as int, x@);
                crate::order::lemma_lex_le_connected(ov[k as int], x@);
                if p < k && q < k {
                } else if q == k {
                    assert(nv[q] == x@);
                } else if p == k {
                    assert(nv[p] == x@);
                    assert(nv[q] == ov[q - 1]);
                    assert(!lex_le(ov[k as int], x@));
                    assert(lex_le(x@, ov[k as int]));
                    if q - 1 > k {
                        assert(leq(ov[k as int], ov[q - 1]));
                        crate::order::lemma_lex_le_trans(x@, ov[k as int], ov[q - 1]);
                    }
                } else if p < k && q > k {
                    assert(nv[p] == ov[p]);
                    assert(nv[q] == ov[q - 1]);
                    assert(leq(ov[p], ov[q - 1]));
                } else {
                    assert(nv[p] == ov[p - 1]);
                    assert(nv[q] == ov[q - 1]);
                    assert(leq(ov[p - 1], ov[q - 1]));
                }
            }
            // the multiset gains exactly x
            lemma_insert_to_multiset(ov, k as int, x@);
            assert(nv.to_multiset() == ov.to_multiset().insert(x@));
            vstd::seq_lib::to_multiset_build(hashes_view(v@.take(i as int)), x@);
            assert(v@.take(i + 1) =~= v@.take(i as int).push(v@[i as int]));
            assert(hashes_view(v@.take(i + 1)) =~= hashes_view(v@.take(i as int)).push(x@));
            assert(hashes_view(v@.take(i + 1)).to_multiset() == hashes_view(
                v@.take(i as int),
            ).push(x@).to_multiset());
            assert(hashes_view(out@).to_multiset() == hashes_view(v@.take(i + 1)).to_multiset());
        }
        i = i + 1;
    }
    assert(v@.take(v@.len() as int) =~= v@);
    out
}


/// Copies a vector of hashes.
fn clone_hashes(v: &Vec<[u8; 32]>) -> (r: Vec<[u8; 32]>)
    ensures
        r@ == v@,
{
    let mut r: Vec<[u8; 32]> = Vec::new();
    let mut i: usize = 0;
    while i < v.len()
        invariant
            i <= v@.len(),
            r@ == v@.take(i as int),
        decreases v@.len() - i,
    {
        r.push(v[i]);
        assert(v@.take(i + 1) == v@.take(i as int).push(v@[i as int]));
        i = i + 1;
    }
    assert(v@.take(v@.len() as int) == v@);
    r
}

/// Builds one level from the one below it.
fn next_level_exec(cur: &Vec<[u8; 32]>) -> (r: Vec<[u8; 32]>)
    ensures
        hashes_view(r@) == next_level(hashes_view(cur@)),
{
    let n: usize = cur.len();
    let mut r: Vec<[u8; 32]> = Vec::new();
    let mut i: usize = 0;
    while i < n / 2
        invariant
            i <= n / 2,
            n == cur@.len(),
            r@.len() == i,
            forall|j: int|
                #![trigger r@[j]]
                0 <= j < i ==> r@[j]@ == combine(cur@[2 * j]@, cur@[2 * j + 1]@),
        decreases n / 2 - i,
    {
        let h: [u8; 32] = combine_hashes(&cur[2 * i], &cur[2 * i + 1]);
        r.push(h);
        i = i + 1;
    }
    if n % 2 == 1 {
        r.push(cur[n - 1]);
    }
    proof {
        let lv = hashes_view(cur@);
        assert(hashes_view(r@) =~= next_level(lv)) by {
            assert(r@.len() == (n + 1) / 2);
            assert forall|j: int| 0 <= j < r@.len() implies hashes_view(r@)[j] == next_level(lv)[j]
                by {
                if 2 * j + 1 < n {
                    assert(r@[j]@ == combine(cur@[2 * j]@, cur@[2 * j + 1]@));
                } else {
                    assert(n % 2 == 1 && j == n / 2);
                    assert(2 * j == n - 1);
                    assert(r@[j] == cur@[n - 1]);
                }
            }
        }
    }
    r
}

/// Builds all levels, base first, stopping at a single root hash.
fn build_levels(leaves: &Vec<[u8; 32]>) -> (r: Vec<Vec<[u8; 32]>>)
    requires
        leaves@.len() >= 1,
    ensures
        r@.len() >= 1,
        r@[0]@ == leaves@,
        forall|l: int|
            #![trigger r@[l]]
            0 <= l < r@.len() - 1 ==> hashes_view(r@[l + 1]@) == next_level(hashes_view(r@[l]@)),
        forall|l: int| #![trigger r@[l]] 0 <= l < r@.len() ==> r@[l]@.len() >= 1,
        r@[r@.len() - 1]@.len() == 1,
{
    let mut levels: Vec<Vec<[u8; 32]>> = Vec::new();
    let base = clone_hashes(leaves);
    levels.push(base);
    while levels[levels.len() - 1].len() > 1
        invariant
            levels@.len() >= 1,
            levels@[0]@ == leaves@,
            forall|l: int|
                #![trigger levels@[l]]
                0 <= l < levels@.len() - 1 ==> hashes_view(levels@[l + 1]@) == next_level(
                    hashes_view(levels@[l]@),
                ),
            forall|l: int| #![trigger levels@[l]] 0 <= l < levels@.len() ==> levels@[l]@.len() >= 1,
        decreases levels@[levels@.len() - 1]@.len(),
    {
        let next = next_level_exec(&levels[levels.len() - 1]);
        let ghost old_levels = levels@;
        let ghost m = levels@[levels@.len() - 1]@.len();
        levels.push(next);
        proof {
            assert(levels@ == old_levels.push(next));
            assert(hashes_view(next@) == next_level(hashes_view(old_levels[old_levels.len() - 1]@)));
            assert(hashes_view(next@).len() == next@.len());
            assert(hashes_view(old_levels[old_levels.len() - 1]@).len() == m);
            assert(next_level(hashes_view(old_levels[old_levels.len() - 1]@)).len() == (m + 1) / 2);
            assert(next@.len() == (m + 1) / 2);
            assert(m >= 2);
            assert((m + 1) / 2 < m);
            assert forall|l: int| 0 <= l < levels@.len() - 1 implies hashes_view(
                levels@[l + 1]@,
            ) == next_level(hashes_view(levels@[l]@)) by {
                if l < old_levels.len() - 1 {
                    assert(levels@[l] == old_levels[l]);
                    assert(levels@[l + 1] == old_levels[l + 1]);
                } else {
                    assert(levels@[l] == old_levels[old_levels.len() - 1]);
                    assert(levels@[l + 1] == next);
                }
            }
        }
    }
    levels
}

/// Walks from a leaf to the root, collecting the sibling hash at each level.
fn collect_proof(levels: &Vec<Vec<[u8; 32]>>, leaf_index: usize) -> (r: Vec<[u8; 32]>)
    requires
        levels@.len() >= 1,
        forall|l: int|
            #![trigger levels@[l]]
            0 <= l < levels@.len() - 1 ==> hashes_view(levels@[l + 1]@) == next_level(
                hashes_view(levels@[l]@),
            ),
        forall|l: int| #![trigger levels@[l]] 0 <= l < levels@.len() ==> levels@[l]@.len() >= 1,
        levels@[levels@.len() - 1]@.len() == 1,
        leaf_index < levels@[0]@.len(),
    ensures
        fold_proof(hashes_view(levels@[0]@)[leaf_index as int], hashes_view(r@)) == hashes_view(
            levels@[levels@.len() - 1]@,
        )[0],
{
    let ghost start: Seq<u8> = hashes_view(levels@[0]@)[leaf_index as int];
    let mut path: Vec<[u8; 32]> = Vec::new();
    let mut idx: usize = leaf_index;
    let mut l: usize = 0;
    while l < levels.len() - 1
        invariant
            levels@.len() >= 1,
            forall|m: int|
                #![trigger levels@[m]]
                0 <= m < levels@.len() - 1 ==> hashes_view(levels@[m + 1]@) == next_level(
                    hashes_view(levels@[m]@),
                ),
            forall|m: int| #![trigger levels@[m]] 0 <= m < levels@.len() ==> levels@[m]@.len() >= 1,
            l < levels@.len(),
            idx < levels@[l as int]@.len(),
            fold_proof(start, hashes_view(path@)) == hashes_view(levels@[l as int]@)[idx as int],
        decreases levels@.len() - l,
    {
        let ghost lvw = hashes_view(levels@[l as int]@);
        let ghost nvw = hashes_view(levels@[l + 1]@);
        let ghost old_path = path@;
        let lev_len: usize = levels[l].len();
        let sib: usize = if idx % 2 == 0 {
            idx + 1
        } else {
            idx - 1
        };
        if sib < lev_len {
            let s: [u8; 32] = levels[l][sib];
            path.push(s);
        }
        proof {
            assert(nvw == next_level(lvw));
            let k = idx as int / 2;
            assert(nvw[k] == (if 2 * k + 1 < lvw.len() {
                combine(lvw[2 * k], lvw[2 * k + 1])
            } else {
                lvw[2 * k]
            }));
            if idx % 2 == 0 {
                if idx + 1 < lev_len {
                    assert(path@ == old_path.push(levels@[l as int]@[idx + 1]));
                    assert(hashes_view(path@) =~= hashes_view(old_path).push(lvw[idx + 1]));
                    lemma_fold_push(start, hashes_view(old_path), lvw[idx + 1]);
                    assert(2 * k == idx);
                    assert(fold_proof(start, hashes_view(path@)) == combine(
                        lvw[idx as int],
                        lvw[idx + 1],
                    ));
                } else {
                    assert(2 * k == idx);
                    assert(2 * k + 1 >= lvw.len());
                    assert(fold_proof(start, hashes_view(path@)) == lvw[idx as int]);
                }
            } else {
                assert(path@ == old_path.push(levels@[l as int]@[idx - 1]));
                assert(hashes_view(path@) =~= hashes_view(old_path).push(lvw[idx - 1]));
                lemma_fold_push(start, hashes_view(old_path), lvw[idx - 1]);
                assert(2 * k == idx - 1);
                assert(2 * k + 1 == idx);
                lemma_combine_comm(lvw[idx as int], lvw[idx - 1]);
                assert(fold_proof(start, hashes_view(path@)) == combine(lvw[2 * k], lvw[2 * k + 1]));
            }
            assert(idx as int / 2 < nvw.len());
        }
        idx = idx / 2;
        l = l + 1;
    }
    proof {
        assert(l == levels@.len() - 1);
        assert(levels@[l as int]@.len() == 1);
        assert(idx == 0);
    }
    path
}

/// Finds the position of a hash that is known to occur in a vector.
fn find_hash(sorted: &Vec<[u8; 32]>, target: &[u8; 32]) -> (r: usize)
    requires
        hashes_view(sorted@).to_multiset().contains(target@),
    ensures
        r < sorted@.len(),
        sorted@[r as int]@ == target@,
{
    let mut i: usize = 0;
    while i < sorted.len()
        invariant
            i <= sorted@.len(),
            forall|m: int| 0 <= m < i ==> sorted@[m]@ != target@,
        decreases sorted@.len() - i,
    {
        if hash_eq(&sorted[i], target) {
            return i;
        }
        i = i + 1;
    }
    proof {
        broadcast use vstd::seq_lib::group_to_multiset_ensures;

        assert(forall|m: int| 0 <= m < hashes_view(sorted@).len() ==> hashes_view(sorted@)[m]
            != target@);
        assert(!hashes_view(sorted@).contains(target@));
        assert(false);
    }
    0
}


/// Stacked levels whose base folds up to the last level's only entry.
proof fn lemma_root_through_levels(levels: Seq<Seq<Seq<u8>>>)
    requires
        levels.len() >= 1,
        forall|l: int|
            #![trigger levels[l]]
            0 <= l < levels.len() - 1 ==> levels[l + 1] == next_level(levels[l]),
        forall|l: int| #![trigger levels[l]] 0 <= l < levels.len() ==> levels[l].len() >= 1,
        levels[levels.len() - 1].len() == 1,
    ensures
        root_from(levels[0]) == levels[levels.len() - 1][0],
    decreases levels.len(),
{
    if levels.len() == 1 {
    } else {
        let rest = levels.skip(1);
        assert forall|l: int| 0 <= l < rest.len() - 1 implies rest[l + 1] == next_level(
            rest[l],
        ) by {
            assert(rest[l] == levels[l + 1]);
            assert(rest[l + 1] == levels[l + 2]);
        }
        assert forall|l: int| 0 <= l < rest.len() implies rest[l].len() >= 1 by {
            assert(rest[l] == levels[l + 1]);
        }
        assert(rest[rest.len() - 1] == levels[levels.len() - 1]);
        lemma_root_through_levels(rest);
        assert(levels[1] == next_level(levels[0]));
        if levels[0].len() == 1 {
            // a singleton level maps to itself
            assert(next_level(levels[0]).len() == 1);
            assert(next_level(levels[0])[0] == levels[0][0]);
            assert(root_from(levels[0]) == levels[0][0]);
            assert(root_from(rest[0]) == rest[0][0]);
        } else {
            assert(root_from(levels[0]) == root_from(next_level(levels[0])));
        }
    }
}

/// Mathematical view of a built tree: its root and its records with proofs.
pub struct TreeView {
    pub root: Seq<u8>,
    pub nodes: Seq<TreeNodeView>,
}

/// A built Merkle tree: the root and every claim record with its proof.
#[derive(Debug)]
pub struct AirdropMerkleTree {
    /// The 32-byte root hash committing to the whole claim set.
    pub merkle_root: [u8; 32],
    /// The claim records, in input order, each carrying its proof.
    pub tree_nodes: Vec<TreeNode>,
}

impl View for AirdropMerkleTree {
    type V = TreeView;

    open spec fn view(&self) -> TreeView {
        TreeView { root: self.merkle_root@, nodes: node_views(self.tree_nodes@) }
    }
}

impl AirdropMerkleTree {
    /// Builds the tree over the given records.
    ///
    /// Fails with `EmptyTreeError` on zero records and with
    /// `DuplicateClaimantError` when two records share a claimant key. On
    /// success every output record keeps its input payload and position,
    /// carries a proof that replays to the root, and the root is the
    /// canonical root of the multiset of leaf hashes.
    pub fn new(records: Vec<TreeNode>) -> (r: Result<AirdropMerkleTree, MerkleTreeError>)
        ensures
            r is Ok <==> (records@.len() > 0 && !has_duplicate(node_views(records@))),
            records@.len() == 0 ==> r == Err::<AirdropMerkleTree, MerkleTreeError>(
                MerkleTreeError::EmptyTreeError,
            ),
            (records@.len() > 0 && has_duplicate(node_views(records@))) ==> r == Err::<
                AirdropMerkleTree,
                MerkleTreeError,
            >(MerkleTreeError::DuplicateClaimantError),
            r matches Ok(t) ==> {
                &&& t@.nodes.len() == records@.len()
                &&& forall|i: int|
                    #![trigger t@.nodes[i]]
                    0 <= i < records@.len() ==> {
                        &&& t@.nodes[i].claimant == node_views(records@)[i].claimant
                        &&& t@.nodes[i].amount_unlocked == node_views(
                            records@,
                        )[i].amount_unlocked
                        &&& t@.nodes[i].amount_locked == node_views(records@)[i].amount_locked
                        &&& t@.nodes[i].proof is Some
                        &&& proof_verifies(t@.root, t@.nodes[i], t@.nodes[i].proof.unwrap())
                    }
                &&& t@.root == root_of(leaf_hashes(node_views(records@)))
            },
    {
        let ghost rv = node_views(records@);
        let n: usize = records.len();
        if n == 0 {
            return Err(MerkleTreeError::EmptyTreeError);
        }
        // duplicate-claimant detection: exact byte equality of decoded keys
        let mut i: usize = 0;
        while i < n
            invariant
                n == records@.len(),
                rv == node_views(records@),
                i <= n,
                forall|p: int, q: int|
                    #![trigger rv[p], rv[q]]
                    0 <= p < q < n && p < i ==> rv[p].claimant != rv[q].claimant,
            decreases n - i,
        {
            let mut j: usize = i + 1;
            while j < n
                invariant
                    n == records@.len(),
                    rv == node_views(records@),
                    i < n,
                    i < j <= n,
                    forall|p: int, q: int|
                        #![trigger rv[p], rv[q]]
                        0 <= p < q < n && p < i ==> rv[p].claimant != rv[q].claimant,
                    forall|q: int| #![trigger rv[q]] i < q < j ==> rv[i as int].claimant != rv[q].claimant,
                decreases n - j,
            {
                let a: [u8; 32] = records[i].claimant;
                let b: [u8; 32] = records[j].claimant;
                if hash_eq(&a, &b) {
                    proof {
                        assert(rv[i as int].claimant == a@);
                        assert(rv[j as int].claimant == b@);
                        assert(has_duplicate(rv));
                    }
                    return Err(MerkleTreeError::DuplicateClaimantError);
                }
                assert(rv[i as int].claimant != rv[j as int].claimant);
                j = j + 1;
            }
            i = i + 1;
        }
        assert(!has_duplicate(rv));
        // leaf hashes in record order
        let mut hashes: Vec<[u8; 32]> = Vec::new();
        let mut k: usize = 0;
        while k < n
            invariant
                n == records@.len(),
                k <= n,
                hashes@.len() == k,
                forall|m: int|
                    #![trigger hashes@[m]]
                    0 <= m < k ==> hashes@[m]@ == spec_node_hash(records@[m]@),
            decreases n - k,
        {
            let h: [u8; 32] = records[k].hash();
            hashes.push(h);
            k = k + 1;
        }
        assert(hashes_view(hashes@) =~= leaf_hashes(rv));
        let sorted = sort_hashes(&hashes);
        let levels = build_levels(&sorted);
        let root: [u8; 32] = levels[levels.len() - 1][0];
        let ghost lvls = levels@.map_values(|lv: Vec<[u8; 32]>| hashes_view(lv@));
        proof {
            assert(lvls.len() == levels@.len());
            assert forall|l: int| 0 <= l < lvls.len() - 1 implies lvls[l + 1] == next_level(
                lvls[l],
            ) by {
                assert(lvls[l] == hashes_view(levels@[l]@));
                assert(lvls[l + 1] == hashes_view(levels@[l + 1]@));
            }
            assert forall|l: int| 0 <= l < lvls.len() implies lvls[l].len() >= 1 by {
                assert(lvls[l] == hashes_view(levels@[l]@));
            }
            assert(lvls[lvls.len() - 1] == hashes_view(levels@[levels@.len() - 1]@));
            assert(lvls[lvls.len() - 1].len() == 1);
            lemma_root_through_levels(lvls);
            assert(lvls[0] == hashes_view(levels@[0]@));
            assert(hashes_view(levels@[0]@) == hashes_view(sorted@));
            assert(root@ == lvls[lvls.len() - 1][0]);
            assert(root@ == root_from(hashes_view(sorted@)));
            // the exec sort agrees with the specification-level sort
            crate::order::lemma_lex_total_ordering();
            let leaves = leaf_hashes(rv);
            leaves.lemma_sort_by_ensures(lex_leq());
            lemma_sorted_unique(hashes_view(sorted@), leaves.sort_by(lex_leq()), lex_leq());
            assert(hashes_view(sorted@) == leaves.sort_by(lex_leq()));
            assert(root@ == root_of(leaves));
        }
        // attach a proof to every record, in input order
        let mut out_nodes: Vec<TreeNode> = Vec::new();
        let mut j: usize = 0;
        while j < n
            invariant
                n == records@.len(),
                n >= 1,
                rv == node_views(records@),
                j <= n,
                out_nodes@.len() == j,
                hashes@.len() == n,
                forall|m: int|
                    #![trigger hashes@[m]]
                    0 <= m < n ==> hashes@[m]@ == spec_node_hash(records@[m]@),
                sorted@.len() == n,
                hashes_view(sorted@).to_multiset() == hashes_view(hashes@).to_multiset(),
                levels@.len() >= 1,
                forall|l: int|
                    #![trigger levels@[l]]
                    0 <= l < levels@.len() - 1 ==> hashes_view(levels@[l + 1]@) == next_level(
                        hashes_view(levels@[l]@),
                    ),
                forall|l: int|
                    #![trigger levels@[l]]
                    0 <= l < levels@.len() ==> levels@[l]@.len() >= 1,
                levels@[levels@.len() - 1]@.len() == 1,
                levels@[0]@ == sorted@,
                root@ == hashes_view(levels@[levels@.len() - 1]@)[0],
                forall|m: int|
                    #![trigger out_nodes@[m]]
                    0 <= m < j ==> {
                        &&& out_nodes@[m]@.claimant == rv[m].claimant
                        &&& out_nodes@[m]@.amount_unlocked == rv[m].amount_unlocked
                        &&& out_nodes@[m]@.amount_locked == rv[m].amount_locked
                        &&& out_nodes@[m]@.proof is Some
                        &&& proof_verifies(root@, out_nodes@[m]@, out_nodes@[m]@.proof.unwrap())
                    },
            decreases n - j,
        {
            let target: [u8; 32] = hashes[j];
            proof {
                broadcast use vstd::seq_lib::group_to_multiset_ensures;

                assert(hashes_view(hashes@)[j as int] == target@);
                assert(hashes_view(hashes@).contains(target@));
                assert(hashes_view(hashes@).to_multiset().count(target@) > 0);
                assert(hashes_view(sorted@).to_multiset().contains(target@));
            }
            let pos: usize = find_hash(&sorted, &target);
            let path = collect_proof(&levels, pos);
            let node = TreeNode {
                claimant: records[j].claimant,
                amount_unlocked: records[j].amount_unlocked,
                amount_locked: records[j].amount_locked,
                proof: Some(path),
            };
            proof {
                assert(hashes_view(levels@[0]@)[pos as int] == sorted@[pos as int]@);
                assert(sorted@[pos as int]@ == target@);
                assert(target@ == spec_node_hash(records@[j as int]@));
                assert(node@.claimant == rv[j as int].claimant);
                assert(spec_node_hash(node@) == spec_node_hash(records@[j as int]@));
                assert(node@.proof.unwrap() == hashes_view(node.proof.unwrap()@));
            }
            out_nodes.push(node);
            j = j + 1;
        }
        proof {
            assert(node_views(out_nodes@).len() == n);
        }
        Ok(AirdropMerkleTree { merkle_root: root, tree_nodes: out_nodes })
    }

    /// The root hash of the tree.
    pub fn get_root(&self) -> (r: [u8; 32])
        ensures
            r@ == self@.root,
    {
        self.merkle_root
    }
}

/// Checks a record's inclusion proof against a root: replays the proof from
/// the record's leaf hash and compares the result with the root. Never
/// fails; it returns the boolean outcome.
pub fn verify(root: &[u8; 32], record: &TreeNode, proof: &Vec<[u8; 32]>) -> (r: bool)
    ensures
        r == proof_verifies(root@, record@, hashes_view(proof@)),
{
    let mut cur: [u8; 32] = record.hash();
    let mut k: usize = 0;
    while k < proof.len()
        invariant
            k <= proof@.len(),
            cur@ == fold_proof(spec_node_hash(record@), hashes_view(proof@).take(k as int)),
        decreases proof@.len() - k,
    {
        let ghost pv = hashes_view(proof@);
        let next: [u8; 32] = combine_hashes(&cur, &proof[k]);
        proof {
            lemma_fold_push(spec_node_hash(record@), pv.take(k as int), pv[k as int]);
            assert(pv.take(k + 1) =~= pv.take(k as int).push(pv[k as int]));
        }
        cur = next;
        k = k + 1;
    }
    assert(hashes_view(proof@).take(proof@.len() as int) =~= hashes_view(proof@));
    hash_eq(&cur, root)
}

/// Order independence of the root: two record sequences with the same
/// multiset of leaf hashes (for example, two orderings of one claim set)
/// commit to the same canonical root.
pub proof fn lemma_root_order_independent(a: Seq<TreeNodeView>, b: Seq<TreeNodeView>)
    requires
        leaf_hashes(a).to_multiset() == leaf_hashes(b).to_multiset(),
    ensures
        root_of(leaf_hashes(a)) == root_of(leaf_hashes(b)),
{
    crate::order::lemma_lex_total_ordering();
    leaf_hashes(a).lemma_sort_by_ensures(lex_leq());
    leaf_hashes(b).lemma_sort_by_ensures(lex_leq());
    lemma_sorted_unique(
        leaf_hashes(a).sort_by(lex_leq()),
        leaf_hashes(b).sort_by(lex_leq()),
        lex_leq(),
    );
}

} // verus!
