//! Deterministic binary encoding of a built tree (the "blob").
//!
//! Layout, fixed for interoperability:
//! - 1 byte: format version tag;
//! - 32 bytes: the root hash;
//! - 8 bytes: the record count, little endian;
//! - per record: 32 bytes claimant key, 8 bytes unlocked amount (LE), 8
//!   bytes locked amount (LE), 1 flag byte (0: no proof, 1: proof present),
//!   and when present 8 bytes proof length (LE) followed by the proof hashes,
//!   32 bytes each.
//!
//! Decoding accepts exactly the encodings above and consumes the whole
//! input; anything else is `CorruptBlobError`.

use vstd::bytes::{spec_u64_from_le_bytes, spec_u64_to_le_bytes};
use vstd::prelude::*;

use crate::error::MerkleTreeError;
use crate::merkle::{node_views, push_hash, AirdropMerkleTree, TreeView};
use crate::tree_node::{hashes_view, TreeNode, TreeNodeView};

verus! {

/// The format version this module writes and accepts.
pub const BLOB_VERSION: u8 = 1;

/// The concatenation of a sequence of 32-byte hashes.
pub open spec fn encode_hashes(hs: Seq<Seq<u8>>) -> Seq<u8>
    decreases hs.len(),
{
    if hs.len() == 0 {
        Seq::<u8>::empty()
    } else {
        hs[0] + encode_hashes(hs.skip(1))
    }
}

/// The encoding of one record.
pub open spec fn encode_node(n: TreeNodeView) -> Seq<u8> {
    n.claimant + spec_u64_to_le_bytes(n.amount_unlocked) + spec_u64_to_le_bytes(n.amount_locked)
        + (match n.proof {
        None => seq![0u8],
        Some(p) => seq![1u8] + spec_u64_to_le_bytes(p.len() as u64) + encode_hashes(p),
    })
}

/// The concatenated encodings of a sequence of records.
pub open spec fn encode_nodes(ns: Seq<TreeNodeView>) -> Seq<u8>
    decreases ns.len(),
{
    if ns.len() == 0 {
        Seq::<u8>::empty()
    } else {
        encode_node(ns[0]) + encode_nodes(ns.skip(1))
    }
}

/// The full blob encoding of a tree.
pub open spec fn encode_tree(t: TreeView) -> Seq<u8> {
    seq![BLOB_VERSION] + t.root + spec_u64_to_le_bytes(t.nodes.len() as u64) + encode_nodes(t.nodes)
}

/// Reads `k` 32-byte hashes; yields them and the remaining bytes.
pub open spec fn decode_hashes(b: Seq<u8>, k: nat) -> Option<(Seq<Seq<u8>>, Seq<u8>)>
    decreases k,
{
    if k == 0 {
        Some((Seq::<Seq<u8>>::empty(), b))
    } else if b.len() < 32 {
        None
    } else {
        match decode_hashes(b.skip(32), (k - 1) as nat) {
            None => None,
            Some(pr) => Some((seq![b.take(32)] + pr.0, pr.1)),
        }
    }
}

/// Reads one record; yields it and the remaining bytes.
pub open spec fn decode_node(b: Seq<u8>) -> Option<(TreeNodeView, Seq<u8>)> {
    if b.len() < 49 {
        None
    } else {
        let claimant = b.take(32);
        let unlocked = spec_u64_from_le_bytes(b.subrange(32, 40));
        let locked = spec_u64_from_le_bytes(b.subrange(40, 48));
        if b[48] == 0 {
            Some(
                (
                    TreeNodeView {
                        claimant,
                        amount_unlocked: unlocked,
                        amount_locked: locked,
                        proof: None,
                    },
                    b.skip(49),
                ),
            )
        } else if b[48] == 1 {
            if b.len() < 57 {
                None
            } else {
                let plen = spec_u64_from_le_bytes(b.subrange(49, 57));
                match decode_hashes(b.skip(57), plen as nat) {
                    None => None,
                    Some(pr) => Some(
                        (
                            TreeNodeView {
                                claimant,
                                amount_unlocked: unlocked,
                                amount_locked: locked,
                                proof: Some(pr.0),
                            },
                            pr.1,
                        ),
                    ),
                }
            }
        } else {
            None
        }
    }
}

/// Reads `k` records; yields them and the remaining bytes.
pub open spec fn decode_nodes(b: Seq<u8>, k: nat) -> Option<(Seq<TreeNodeView>, Seq<u8>)>
    decreases k,
{
    if k == 0 {
        Some((Seq::<TreeNodeView>::empty(), b))
    } else {
        match decode_node(b) {
            None => None,
            Some(pr) => match decode_nodes(pr.1, (k - 1) as nat) {
                None => None,
                Some(pr2) => Some((seq![pr.0] + pr2.0, pr2.1)),
            },
        }
    }
}

/// Decodes a whole blob; `None` on any malformed or trailing input.
pub open spec fn decode_tree(b: Seq<u8>) -> Option<TreeView> {
    if b.len() < 41 {
        None
    } else if b[0] != BLOB_VERSION {
        None
    } else {
        let root = b.subrange(1, 33);
        let count = spec_u64_from_le_bytes(b.subrange(33, 41));
        match decode_nodes(b.skip(41), count as nat) {
            None => None,
            Some(pr) => if pr.1.len() == 0 {
                Some(TreeView { root, nodes: pr.0 })
            } else {
                None
            },
        }
    }
}

/// A record whose encoding round-trips: a 32-byte key and 32-byte proof
/// hashes, with a proof length that fits the length field.
pub open spec fn wf_node_view(n: TreeNodeView) -> bool {
    &&& n.claimant.len() == 32
    &&& (n.proof matches Some(p) ==> p.len() <= u64::MAX && forall|i: int|
        0 <= i < p.len() ==> p[i].len() == 32)
}

/// A tree whose encoding round-trips.
pub open spec fn wf_tree_view(t: TreeView) -> bool {
    &&& t.root.len() == 32
    &&& t.nodes.len() <= u64::MAX
    &&& forall|i: int| 0 <= i < t.nodes.len() ==> wf_node_view(#[trigger] t.nodes[i])
}

/// The encoding of `k` hashes is `32 * k` bytes long.
proof fn lemma_encode_hashes_len(hs: Seq<Seq<u8>>)
    requires
        forall|i: int| 0 <= i < hs.len() ==> hs[i].len() == 32,
    ensures
        encode_hashes(hs).len() == 32 * hs.len(),
    decreases hs.len(),
{
    if hs.len() > 0 {
        assert(hs[0].len() == 32);
        lemma_encode_hashes_len(hs.skip(1));
    }
}

/// Decoding the encoding of hashes gives them back, with the rest untouched.
proof fn lemma_hashes_round_trip(hs: Seq<Seq<u8>>, rest: Seq<u8>)
    requires
        forall|i: int| 0 <= i < hs.len() ==> hs[i].len() == 32,
    ensures
        decode_hashes(encode_hashes(hs) + rest, hs.len()) == Some((hs, rest)),
    decreases hs.len(),
{
    if hs.len() == 0 {
        assert(encode_hashes(hs) + rest =~= rest);
    } else {
        let b = encode_hashes(hs) + rest;
        let tail = encode_hashes(hs.skip(1)) + rest;
        assert(hs[0].len() == 32);
        assert(b =~= hs[0] + tail);
        assert(b.take(32) =~= hs[0]);
        assert(b.skip(32) =~= tail);
        lemma_hashes_round_trip(hs.skip(1), rest);
        assert(seq![b.take(32)] + hs.skip(1) =~= hs);
    }
}

/// Decoding the encoding of one well-formed record gives it back.
proof fn lemma_node_round_trip(n: TreeNodeView, rest: Seq<u8>)
    requires
        wf_node_view(n),
    ensures
        decode_node(encode_node(n) + rest) == Some((n, rest)),
{
    vstd::bytes::lemma_auto_spec_u64_to_from_le_bytes();
    let b = encode_node(n) + rest;
    let ub = spec_u64_to_le_bytes(n.amount_unlocked);
    let lb = spec_u64_to_le_bytes(n.amount_locked);
    assert(ub.len() == 8);
    assert(lb.len() == 8);
    match n.proof {
        None => {
            assert(b =~= n.claimant + ub + lb + seq![0u8] + rest);
            assert(b.len() == 49 + rest.len());
            assert(b.take(32) =~= n.claimant);
            assert(b.subrange(32, 40) =~= ub);
            assert(b.subrange(40, 48) =~= lb);
            assert(b[48] == 0);
            assert(b.skip(49) =~= rest);
            assert(decode_node(b) == Some((n, rest)));
        },
        Some(p) => {
            let plen_bytes = spec_u64_to_le_bytes(p.len() as u64);
            assert(plen_bytes.len() == 8);
            lemma_encode_hashes_len(p);
            assert(b =~= n.claimant + ub + lb + seq![1u8] + plen_bytes + (encode_hashes(p)
                + rest));
            assert(b.len() == 57 + 32 * p.len() + rest.len());
            assert(b.take(32) =~= n.claimant);
            assert(b.subrange(32, 40) =~= ub);
            assert(b.subrange(40, 48) =~= lb);
            assert(b[48] == 1);
            assert(b.subrange(49, 57) =~= plen_bytes);
            assert(spec_u64_from_le_bytes(b.subrange(49, 57)) == p.len() as u64);
            assert((p.len() as u64) as nat == p.len());
            assert(b.skip(57) =~= encode_hashes(p) + rest);
            lemma_hashes_round_trip(p, rest);
            assert(decode_node(b) == Some((n, rest)));
        },
    }
}

/// Decoding the encoding of well-formed records gives them back.
proof fn lemma_nodes_round_trip(ns: Seq<TreeNodeView>, rest: Seq<u8>)
    requires
        forall|i: int| 0 <= i < ns.len() ==> wf_node_view(#[trigger] ns[i]),
    ensures
        decode_nodes(encode_nodes(ns) + rest, ns.len()) == Some((ns, rest)),
    decreases ns.len(),
{
    if ns.len() == 0 {
        assert(encode_nodes(ns) + rest =~= rest);
    } else {
        let tail = encode_nodes(ns.skip(1)) + rest;
        assert(encode_nodes(ns) + rest =~= encode_node(ns[0]) + tail);
        lemma_node_round_trip(ns[0], tail);
        lemma_nodes_round_trip(ns.skip(1), rest);
        assert(seq![ns[0]] + ns.skip(1) =~= ns);
    }
}

/// Round-trip law: decoding the encoding of any well-formed tree yields an
/// equal tree (same root, same records, same proofs).
pub proof fn lemma_blob_round_trip(t: TreeView)
    requires
        wf_tree_view(t),
    ensures
        decode_tree(encode_tree(t)) == Some(t),
{
    vstd::bytes::lemma_auto_spec_u64_to_from_le_bytes();
    let e = encode_tree(t);
    let cb = spec_u64_to_le_bytes(t.nodes.len() as u64);
    assert(cb.len() == 8);
    assert(e =~= seq![BLOB_VERSION] + t.root + cb + encode_nodes(t.nodes));
    assert(e.len() >= 41);
    assert(e[0] == BLOB_VERSION);
    assert(e.subrange(1, 33) =~= t.root);
    assert(e.subrange(33, 41) =~= cb);
    assert(spec_u64_from_le_bytes(e.subrange(33, 41)) == t.nodes.len() as u64);
    assert((t.nodes.len() as u64) as nat == t.nodes.len());
    assert(e.skip(41) =~= encode_nodes(t.nodes) + Seq::<u8>::empty());
    lemma_nodes_round_trip(t.nodes, Seq::<u8>::empty());
    assert(decode_nodes(e.skip(41), t.nodes.len()) == Some((
        t.nodes,
        Seq::<u8>::empty(),
    )));
    assert(decode_tree(e) == Some(TreeView { root: t.root, nodes: t.nodes }));
    assert(TreeView { root: t.root, nodes: t.nodes } == t);
}


/// Appending one hash extends the encoding by its 32 bytes.
proof fn lemma_encode_hashes_push(hs: Seq<Seq<u8>>, x: Seq<u8>)
    ensures
        encode_hashes(hs.push(x)) == encode_hashes(hs) + x,
    decreases hs.len(),
{
    if hs.len() == 0 {
        assert(hs.push(x)[0] == x);
        assert(hs.push(x).skip(1) =~= Seq::<Seq<u8>>::empty());
        assert(encode_hashes(hs.push(x)) == x + encode_hashes(Seq::<Seq<u8>>::empty()));
        assert(x + Seq::<u8>::empty() =~= x);
        assert(encode_hashes(hs) + x =~= x);
    } else {
        assert(hs.push(x)[0] == hs[0]);
        assert(hs.push(x).skip(1) =~= hs.skip(1).push(x));
        lemma_encode_hashes_push(hs.skip(1), x);
        assert(hs[0] + (encode_hashes(hs.skip(1)) + x) =~= (hs[0] + encode_hashes(hs.skip(1)))
            + x);
    }
}

/// Appending one record extends the encoding by that record's bytes.
proof fn lemma_encode_nodes_push(ns: Seq<TreeNodeView>, x: TreeNodeView)
    ensures
        encode_nodes(ns.push(x)) == encode_nodes(ns) + encode_node(x),
    decreases ns.len(),
{
    if ns.len() == 0 {
        assert(ns.push(x)[0] == x);
        assert(ns.push(x).skip(1) =~= Seq::<TreeNodeView>::empty());
        assert(encode_nodes(ns.push(x)) == encode_node(x) + encode_nodes(
            Seq::<TreeNodeView>::empty(),
        ));
        assert(encode_node(x) + Seq::<u8>::empty() =~= encode_node(x));
        assert(encode_nodes(ns) + encode_node(x) =~= encode_node(x));
    } else {
        assert(ns.push(x)[0] == ns[0]);
        assert(ns.push(x).skip(1) =~= ns.skip(1).push(x));
        lemma_encode_nodes_push(ns.skip(1), x);
        assert(encode_node(ns[0]) + (encode_nodes(ns.skip(1)) + encode_node(x)) =~= (encode_node(
            ns[0],
        ) + encode_nodes(ns.skip(1))) + encode_node(x));
    }
}

/// Encodes one record.
fn encode_node_exec(n: &TreeNode) -> (r: Vec<u8>)
    ensures
        r@ == encode_node(n@),
{
    let mut data: Vec<u8> = Vec::new();
    push_hash(&mut data, &n.claimant);
    let mut ub = vstd::bytes::u64_to_le_bytes(n.amount_unlocked);
    data.append(&mut ub);
    let mut lb = vstd::bytes::u64_to_le_bytes(n.amount_locked);
    data.append(&mut lb);
    match &n.proof {
        None => {
            data.push(0u8);
            assert(data@ =~= encode_node(n@));
        },
        Some(p) => {
            data.push(1u8);
            let mut pb = vstd::bytes::u64_to_le_bytes(p.len() as u64);
            data.append(&mut pb);
            let ghost before: Seq<u8> = data@;
            let ghost pv: Seq<Seq<u8>> = hashes_view(p@);
            let mut h: usize = 0;
            while h < p.len()
                invariant
                    h <= p@.len(),
                    pv == hashes_view(p@),
                    data@ == before + encode_hashes(pv.take(h as int)),
                decreases p@.len() - h,
            {
                push_hash(&mut data, &p[h]);
                proof {
                    assert(pv.take(h + 1) =~= pv.take(h as int).push(pv[h as int]));
                    lemma_encode_hashes_push(pv.take(h as int), pv[h as int]);
                }
                h = h + 1;
            }
            proof {
                assert(pv.take(pv.len() as int) =~= pv);
                assert(n@.proof == Some(pv));
                assert((p@.len() as u64) == (pv.len() as u64));
                assert(data@ =~= encode_node(n@));
            }
        },
    }
    data
}

impl AirdropMerkleTree {
    /// Encodes this tree as a blob.
    pub fn write_blob(&self) -> (r: Vec<u8>)
        ensures
            r@ == encode_tree(self@),
    {
        let mut data: Vec<u8> = Vec::new();
        data.push(BLOB_VERSION);
        push_hash(&mut data, &self.merkle_root);
        let count: u64 = self.tree_nodes.len() as u64;
        let mut cb = vstd::bytes::u64_to_le_bytes(count);
        data.append(&mut cb);
        let ghost header: Seq<u8> = data@;
        let ghost nv: Seq<TreeNodeView> = node_views(self.tree_nodes@);
        proof {
            assert(count as nat == nv.len());
        }
        let mut i: usize = 0;
        while i < self.tree_nodes.len()
            invariant
                i <= self.tree_nodes@.len(),
                nv == node_views(self.tree_nodes@),
                data@ == header + encode_nodes(nv.take(i as int)),
            decreases self.tree_nodes@.len() - i,
        {
            let mut nb = encode_node_exec(&self.tree_nodes[i]);
            data.append(&mut nb);
            proof {
                assert(nv.take(i + 1) =~= nv.take(i as int).push(nv[i as int]));
                lemma_encode_nodes_push(nv.take(i as int), nv[i as int]);
                assert(nv[i as int] == self.tree_nodes@[i as int]@);
            }
            i = i + 1;
        }
        proof {
            assert(nv.take(nv.len() as int) =~= nv);
            assert(data@ =~= encode_tree(self@));
        }
        data
    }
}

/// Copies 32 bytes starting at `pos` into a hash.
fn read_hash32(bytes: &Vec<u8>, pos: usize) -> (r: [u8; 32])
    requires
        pos + 32 <= bytes@.len(),
    ensures
        r@ == bytes@.subrange(pos as int, pos as int + 32),
{
    let blen: usize = bytes.len();
    let mut arr: [u8; 32] = [0u8; 32];
    let mut i: usize = 0;
    while i < 32
        invariant
            i <= 32,
            pos + 32 <= blen,
            blen == bytes@.len(),
            forall|k: int| 0 <= k < i ==> arr@[k] == bytes@[pos + k],
        decreases 32 - i,
    {
        arr[i] = bytes[pos + i];
        i = i + 1;
    }
    assert(arr@ =~= bytes@.subrange(pos as int, pos as int + 32));
    arr
}

/// Reads a little-endian `u64` starting at `pos`.
fn read_u64(bytes: &Vec<u8>, pos: usize) -> (r: u64)
    requires
        pos + 8 <= bytes@.len(),
    ensures
        r == spec_u64_from_le_bytes(bytes@.subrange(pos as int, pos as int + 8)),
{
    let blen: usize = bytes.len();
    assert(pos + 8 <= blen);
    let s: &[u8] = vstd::slice::slice_subrange(bytes.as_slice(), pos, pos + 8);
    vstd::bytes::u64_from_le_bytes(s)
}

/// Too few bytes for the requested number of hashes.
proof fn lemma_decode_hashes_insufficient(b: Seq<u8>, k: nat)
    requires
        b.len() < 32 * k,
    ensures
        decode_hashes(b, k) is None,
    decreases k,
{
    if k > 0 && b.len() >= 32 {
        lemma_decode_hashes_insufficient(b.skip(32), (k - 1) as nat);
    }
}

/// With enough bytes, reading hashes always succeeds, yielding consecutive
/// 32-byte chunks and the bytes after them.
proof fn lemma_decode_hashes_total(b: Seq<u8>, k: nat)
    requires
        b.len() >= 32 * k,
    ensures
        (decode_hashes(b, k) matches Some(pr) && pr.0.len() == k && pr.1 == b.skip(32 * k as int)
            && forall|i: int|
            0 <= i < k ==> #[trigger] pr.0[i] == b.subrange(32 * i, 32 * i + 32)),
    decreases k,
{
    if k == 0 {
        assert(b.skip(0) =~= b);
    } else {
        lemma_decode_hashes_total(b.skip(32), (k - 1) as nat);
        let pr1 = decode_hashes(b.skip(32), (k - 1) as nat).unwrap();
        assert(b.skip(32).skip(32 * (k - 1) as int) =~= b.skip(32 * k as int));
        let pr = decode_hashes(b, k).unwrap();
        assert(pr.0 == seq![b.take(32)] + pr1.0);
        assert forall|i: int| 0 <= i < k implies #[trigger] pr.0[i] == b.subrange(
            32 * i,
            32 * i + 32,
        ) by {
            if i == 0 {
                assert(b.take(32) =~= b.subrange(0, 32));
            } else {
                assert(pr.0[i] == pr1.0[i - 1]);
                assert(pr1.0[i - 1] == b.skip(32).subrange(32 * (i - 1), 32 * (i - 1) + 32));
                assert(b.skip(32).subrange(32 * (i - 1), 32 * (i - 1) + 32) =~= b.subrange(
                    32 * i,
                    32 * i + 32,
                ));
            }
        }
    }
}

/// Reads one record starting at `pos`; `None` means the record (and hence
/// the blob) is malformed there.
fn read_node(bytes: &Vec<u8>, pos: usize) -> (r: Option<(TreeNode, usize)>)
    requires
        pos <= bytes@.len(),
    ensures
        (r matches Some(pr) ==> {
            &&& pos < pr.1 <= bytes@.len()
            &&& decode_node(bytes@.skip(pos as int)) == Some((pr.0@, bytes@.skip(pr.1 as int)))
        }),
        r is None ==> decode_node(bytes@.skip(pos as int)) is None,
{
    let ghost b: Seq<u8> = bytes@.skip(pos as int);
    let blen: usize = bytes.len();
    if blen - pos < 49 {
        return None;
    }
    let claimant: [u8; 32] = read_hash32(bytes, pos);
    let unlocked: u64 = read_u64(bytes, pos + 32);
    let locked: u64 = read_u64(bytes, pos + 40);
    proof {
        assert(b.take(32) =~= bytes@.subrange(pos as int, pos as int + 32));
        assert(b.subrange(32, 40) =~= bytes@.subrange(pos as int + 32, pos as int + 40));
        assert(b.subrange(40, 48) =~= bytes@.subrange(pos as int + 40, pos as int + 48));
        assert(b[48] == bytes@[pos as int + 48]);
    }
    let flag: u8 = bytes[pos + 48];
    if flag == 0 {
        let node = TreeNode {
            claimant,
            amount_unlocked: unlocked,
            amount_locked: locked,
            proof: None,
        };
        proof {
            assert(b.skip(49) =~= bytes@.skip(pos as int + 49));
        }
        return Some((node, pos + 49));
    }
    if flag != 1 {
        return None;
    }
    if blen - pos < 57 {
        return None;
    }
    let plen: u64 = read_u64(bytes, pos + 49);
    proof {
        assert(b.subrange(49, 57) =~= bytes@.subrange(pos as int + 49, pos as int + 57));
        assert(b.skip(57) =~= bytes@.skip(pos as int + 57));
    }
    let base: usize = pos + 57;
    let avail: u64 = ((blen - base) / 32) as u64;
    if plen > avail {
        proof {
            assert(b.skip(57).len() == bytes@.len() - base);
            assert(32 * (avail as nat) <= (blen - base) as nat);
            assert(((blen - base) as nat) < 32 * ((avail as nat) + 1));
            assert(b.skip(57).len() < 32 * (plen as nat));
            lemma_decode_hashes_insufficient(b.skip(57), plen as nat);
        }
        return None;
    }
    proof {
        assert(32 * (plen as nat) <= 32 * (avail as nat)) by (nonlinear_arith)
            requires
                plen <= avail,
        ;
        assert(32 * (avail as nat) <= (blen - base) as nat);
        lemma_decode_hashes_total(b.skip(57), plen as nat);
    }
    let ghost chunks: Seq<Seq<u8>> = decode_hashes(b.skip(57), plen as nat).unwrap().0;
    let hcount: usize = (plen as usize);
    let mut acc: Vec<[u8; 32]> = Vec::new();
    let mut h: usize = 0;
    while h < hcount
        invariant
            h <= hcount,
            hcount == plen as nat,
            base + 32 * hcount <= blen,
            blen == bytes@.len(),
            base == pos + 57,
            b == bytes@.skip(pos as int),
            chunks == decode_hashes(b.skip(57), plen as nat).unwrap().0,
            chunks.len() == plen as nat,
            forall|i: int|
                0 <= i < chunks.len() ==> #[trigger] chunks[i] == b.skip(57).subrange(
                    32 * i,
                    32 * i + 32,
                ),
            acc@.len() == h,
            forall|m: int| 0 <= m < h ==> #[trigger] acc@[m]@ == chunks[m],
        decreases hcount - h,
    {
        proof {
            assert(32 * (h as nat) + 32 <= 32 * (hcount as nat)) by (nonlinear_arith)
                requires
                    h < hcount,
            ;
        }
        let arr: [u8; 32] = read_hash32(bytes, base + 32 * h);
        proof {
            assert(b.skip(57).subrange(32 * (h as int), 32 * (h as int) + 32) =~= bytes@.subrange(
                base + 32 * (h as int),
                base + 32 * (h as int) + 32,
            ));
            assert(arr@ == chunks[h as int]);
        }
        acc.push(arr);
        h = h + 1;
    }
    proof {
        assert(hashes_view(acc@) =~= chunks);
    }
    let node = TreeNode {
        claimant,
        amount_unlocked: unlocked,
        amount_locked: locked,
        proof: Some(acc),
    };
    let newpos: usize = base + 32 * hcount;
    proof {
        let pr = decode_hashes(b.skip(57), plen as nat).unwrap();
        assert(pr.1 == b.skip(57).skip(32 * (plen as nat) as int));
        assert(b.skip(57).skip(32 * (plen as nat) as int) =~= bytes@.skip(newpos as int));
        assert(node@.proof == Some(hashes_view(acc@)));
        assert(decode_node(b) == Some((node@, bytes@.skip(newpos as int))));
    }
    Some((node, newpos))
}

/// Decodes a blob into a tree. Accepts exactly what [`encode_tree`]
/// produces for some tree and consumes all input; fails with
/// `CorruptBlobError` on anything else, including trailing bytes.
pub fn read_blob(bytes: &Vec<u8>) -> (r: Result<AirdropMerkleTree, MerkleTreeError>)
    ensures
        r is Ok <==> decode_tree(bytes@) is Some,
        (r matches Ok(t) ==> decode_tree(bytes@) == Some(t@)),
        r is Err ==> r == Err::<AirdropMerkleTree, MerkleTreeError>(
            MerkleTreeError::CorruptBlobError,
        ),
{
    let blen: usize = bytes.len();
    if blen < 41 {
        return Err(MerkleTreeError::CorruptBlobError);
    }
    if bytes[0] != BLOB_VERSION {
        return Err(MerkleTreeError::CorruptBlobError);
    }
    let root: [u8; 32] = read_hash32(bytes, 1);
    let count: u64 = read_u64(bytes, 33);
    proof {
        assert(bytes@.subrange(1, 33) == root@);
        assert(count == spec_u64_from_le_bytes(bytes@.subrange(33, 41)));
    }
    let mut nodes: Vec<TreeNode> = Vec::new();
    let mut k: u64 = 0;
    let mut pos: usize = 41;
    while k < count
        invariant
            k <= count,
            41 <= pos <= bytes@.len(),
            blen == bytes@.len(),
            blen >= 41,
            bytes@[0] == BLOB_VERSION,
            count == spec_u64_from_le_bytes(bytes@.subrange(33, 41)),
            nodes@.len() == k,
            (decode_nodes(bytes@.skip(41), count as nat) matches Some(pr) ==> (decode_nodes(
                bytes@.skip(pos as int),
                (count - k) as nat,
            ) matches Some(pr2) && pr.0 == node_views(nodes@) + pr2.0 && pr.1 == pr2.1)),
            (decode_nodes(bytes@.skip(pos as int), (count - k) as nat) is Some ==> decode_nodes(
                bytes@.skip(41),
                count as nat,
            ) is Some),
        decreases count - k,
    {
        let step = read_node(bytes, pos);
        match step {
            None => {
                proof {
                    assert(decode_nodes(bytes@.skip(pos as int), (count - k) as nat) is None);
                    assert(decode_nodes(bytes@.skip(41), count as nat) is None);
                    assert(decode_tree(bytes@) is None);
                }
                return Err(MerkleTreeError::CorruptBlobError);
            },
            Some(pr) => {
                let (node, newpos) = pr;
                let ghost old_nodes: Seq<TreeNode> = nodes@;
                nodes.push(node);
                proof {
                    assert(node_views(nodes@) =~= node_views(old_nodes).push(node@));
                    let cur = decode_nodes(bytes@.skip(pos as int), (count - k) as nat);
                    let nxt = decode_nodes(bytes@.skip(newpos as int), (count - (k + 1)) as nat);
                    assert(decode_node(bytes@.skip(pos as int)) == Some((
                        node@,
                        bytes@.skip(newpos as int),
                    )));
                    if nxt is Some {
                        let pr3 = nxt.unwrap();
                        assert(cur matches Some(c) && c.0 == seq![node@] + pr3.0 && c.1 == pr3.1);
                        assert(node_views(old_nodes) + (seq![node@] + pr3.0) =~= node_views(
                            nodes@,
                        ) + pr3.0);
                    } else {
                        assert(cur is None);
                    }
                }
                pos = newpos;
            },
        }
        k = k + 1;
    }
    proof {
        assert(decode_nodes(bytes@.skip(pos as int), 0) == Some((
            Seq::<TreeNodeView>::empty(),
            bytes@.skip(pos as int),
        )));
        assert(node_views(nodes@) + Seq::<TreeNodeView>::empty() =~= node_views(nodes@));
        assert(decode_nodes(bytes@.skip(41), count as nat) matches Some(pr) && pr.0 == node_views(
            nodes@,
        ) && pr.1 == bytes@.skip(pos as int));
    }
    if pos != blen {
        proof {
            assert(bytes@.skip(pos as int).len() > 0);
            assert(bytes@.len() >= 41);
            assert(bytes@[0] == BLOB_VERSION);
            assert(count as nat == spec_u64_from_le_bytes(bytes@.subrange(33, 41)) as nat);
            assert(decode_nodes(
                bytes@.skip(41),
                spec_u64_from_le_bytes(bytes@.subrange(33, 41)) as nat,
            ) matches Some(pr) && pr.1.len() > 0);
            assert(decode_tree(bytes@) is None);
        }
        return Err(MerkleTreeError::CorruptBlobError);
    }
    proof {
        assert(bytes@.skip(pos as int).len() == 0);
        assert(decode_tree(bytes@) is Some);
    }
    Ok(AirdropMerkleTree { merkle_root: root, tree_nodes: nodes })
}

} // verus!
