//! Binary Merkle trees over SHA-256: commit to a list of values with one
//! root hash, and prove that a value sits at a given leaf.
use crate::hash::{sha256, sha256_spec};
use vstd::arithmetic::power2::{is_pow2, lemma_pow2_unfold, pow2};
use vstd::prelude::*;

verus! {

/// Hash arbitrary bytes to 32 bytes.
pub fn hash_bytes(data: &[u8]) -> (r: [u8; 32])
    ensures
        r@ == sha256_spec(data@),
{
    sha256(data)
}

/// Hash two 32-byte values together (for internal Merkle nodes).
fn hash_pair(left: &[u8; 32], right: &[u8; 32]) -> (r: [u8; 32])
    ensures
        r@ == sha256_spec(left@ + right@),
{
    let mut data: Vec<u8> = Vec::new();
    let mut i: usize = 0;
    while i < 32
        invariant
            i <= 32,
            data@ == left@.subrange(0, i as int),
        decreases 32 - i,
    {
        data.push(left[i]);
        i += 1;
    }
    let mut i: usize = 0;
    while i < 32
        invariant
            i <= 32,
            data@ == left@ + right@.subrange(0, i as int),
        decreases 32 - i,
    {
        data.push(right[i]);
        i += 1;
    }
    proof {
        assert(left@.subrange(0, 32) =~= left@);
        assert(right@.subrange(0, 32) =~= right@);
    }
    sha256(data.as_slice())
}

/// Byte-wise equality of two 32-byte values.
fn bytes32_eq(a: &[u8; 32], b: &[u8; 32]) -> (r: bool)
    ensures
        r == (a@ == b@),
{
    let mut i: usize = 0;
    while i < 32
        invariant
            i <= 32,
            forall|k: int| 0 <= k < i ==> a@[k] == b@[k],
        decreases 32 - i,
    {
        if a[i] != b[i] {
            return false;
        }
        i += 1;
    }
    proof {
        assert(a@ =~= b@);
    }
    true
}

/// Node i of the Merkle tree over the leaf hashes `lh` (n = lh.len()): node 1
/// is the root, nodes n..2n are the leaf hashes, and node i < n hashes its
/// children 2i and 2i+1.
pub open spec fn merkle_node(lh: Seq<Seq<u8>>, i: int) -> Seq<u8>
    decreases 2 * lh.len() - i,
{
    if i <= 0 || i >= 2 * lh.len() {
        Seq::empty()
    } else if i >= lh.len() {
        lh[i - lh.len()]
    } else {
        sha256_spec(merkle_node(lh, 2 * i) + merkle_node(lh, 2 * i + 1))
    }
}

/// The other child of the same parent.
pub open spec fn sibling(pos: int) -> int {
    if pos % 2 == 0 {
        pos + 1
    } else {
        pos - 1
    }
}

/// The sibling hashes on the way from node `pos` up to the root.
pub open spec fn auth_path(lh: Seq<Seq<u8>>, pos: int) -> Seq<Seq<u8>>
    decreases pos,
{
    if pos <= 1 {
        Seq::empty()
    } else {
        seq![merkle_node(lh, sibling(pos))] + auth_path(lh, pos / 2)
    }
}

/// Recompute a root from a node value at position `pos` and sibling hashes.
pub open spec fn merkle_fold(cur: Seq<u8>, pos: int, sibs: Seq<Seq<u8>>) -> Seq<u8>
    decreases sibs.len(),
{
    if sibs.len() == 0 {
        cur
    } else {
        let next = if pos % 2 == 0 {
            sha256_spec(cur + sibs[0])
        } else {
            sha256_spec(sibs[0] + cur)
        };
        merkle_fold(next, pos / 2, sibs.drop_first())
    }
}

/// The hashes of a list of 32-byte values.
pub open spec fn hashes_view(v: Seq<[u8; 32]>) -> Seq<Seq<u8>> {
    v.map_values(|a: [u8; 32]| a@)
}

/// A Merkle tree over a list of leaf hashes.
#[derive(Debug)]
pub struct MerkleTree {
    /// All nodes; nodes[1] is the root and nodes[n..2n] are the leaf hashes.
    nodes: Vec<[u8; 32]>,
    num_leaves: usize,
}

/// A proof that a leaf is part of a tree: sibling hashes from leaf to root.
#[derive(Debug, Clone)]
pub struct MerkleProof {
    pub siblings: Vec<[u8; 32]>,
}

impl View for MerkleTree {
    type V = Seq<Seq<u8>>;

    /// The leaf hashes.
    closed spec fn view(&self) -> Seq<Seq<u8>> {
        Seq::new(self.num_leaves as nat, |k: int| self.nodes@[self.num_leaves + k]@)
    }
}

impl MerkleTree {
    #[verifier::type_invariant]
    spec fn well_formed(self) -> bool {
        &&& self.num_leaves >= 1
        &&& is_pow2(self.num_leaves as int)
        &&& self.nodes.len() == 2 * self.num_leaves
        &&& forall|i: int| 1 <= i < 2 * self.num_leaves ==> (#[trigger] self.nodes@[i])@ == merkle_node(self@, i)
    }

    /// Build the tree: hash each leaf, then hash pairs up to the root.
    pub fn new(leaves: &[Vec<u8>]) -> (t: MerkleTree)
        requires
            is_pow2(leaves.len() as int),
            2 * leaves.len() <= usize::MAX,
        ensures
            t@.len() == leaves.len(),
            forall|k: int| 0 <= k < leaves.len() ==> #[trigger] t@[k] == sha256_spec(leaves[k]@),
    {
        let n = leaves.len();
        proof {
            reveal(is_pow2);
            assert(is_pow2(n as int));
        }
        let mut nodes: Vec<[u8; 32]> = Vec::new();
        while nodes.len() < 2 * n
            invariant
                n == leaves.len(),
                2 * n <= usize::MAX,
                nodes.len() <= 2 * n,
            decreases 2 * n - nodes.len(),
        {
            nodes.push([0u8; 32]);
        }
        let mut i: usize = 0;
        while i < n
            invariant
                n == leaves.len(),
                2 * n <= usize::MAX,
                nodes.len() == 2 * n,
                i <= n,
                forall|k: int| 0 <= k < i ==> (#[trigger] nodes@[n + k])@ == sha256_spec(leaves[k]@),
            decreases n - i,
        {
            let h = hash_bytes(leaves[i].as_slice());
            nodes.set(n + i, h);
            i += 1;
        }
        let ghost lh = Seq::new(n as nat, |k: int| nodes@[n + k]@);
        let mut i: usize = n;
        while i > 1
            invariant
                n == leaves.len(),
                n >= 1,
                nodes.len() == 2 * n,
                1 <= i <= n,
                lh.len() == n,
                forall|k: int| 0 <= k < n ==> (#[trigger] nodes@[n + k])@ == lh[k],
                forall|t: int| i <= t < 2 * n ==> (#[trigger] nodes@[t])@ == merkle_node(lh, t),
            decreases i,
        {
            i -= 1;
            let h = hash_pair(&nodes[2 * i], &nodes[2 * i + 1]);
            nodes.set(i, h);
        }
        proof {
            assert(Seq::new(n as nat, |k: int| nodes@[n + k]@) =~= lh);
        }
        proof {
            assert(is_pow2(n as int));
        }
        let t = MerkleTree { nodes, num_leaves: n };
        proof {
            assert(t@ =~= lh);
        }
        t
    }

    /// The root hash (the commitment to all leaves).
    pub fn root(&self) -> (r: [u8; 32])
        ensures
            r@ == merkle_node(self@, 1),
    {
        proof {
            use_type_invariant(self);
        }
        self.nodes[1]
    }

    /// The authentication path of the leaf at `index`.
    pub fn prove(&self, index: usize) -> (p: MerkleProof)
        requires
            index < self@.len(),
        ensures
            hashes_view(p.siblings@) == auth_path(self@, self@.len() + index),
            pow2(p.siblings.len() as nat) == self@.len(),
    {
        proof {
            use_type_invariant(self);
            reveal(is_pow2);
            lemma_auth_path_len(self@, index as int);
        }
        let mut siblings: Vec<[u8; 32]> = Vec::new();
        let mut pos = self.num_leaves + index;
        let ghost start = pos as int;
        while pos > 1
            invariant
                1 <= pos < 2 * self.num_leaves,
                self.nodes.len() == 2 * self.num_leaves,
                forall|i: int| 1 <= i < 2 * self.num_leaves ==> (#[trigger] self.nodes@[i])@ == merkle_node(self@, i),
                auth_path(self@, start) == hashes_view(siblings@) + auth_path(self@, pos as int),
            decreases pos,
        {
            let s = if pos % 2 == 0 { pos + 1 } else { pos - 1 };
            let ghost old_s = hashes_view(siblings@);
            siblings.push(self.nodes[s]);
            proof {
                assert(hashes_view(siblings@) =~= old_s.push(self.nodes@[s as int]@));
                assert(auth_path(self@, pos as int) == seq![merkle_node(self@, sibling(pos as int))] + auth_path(self@, pos as int / 2));
                assert(hashes_view(siblings@) + auth_path(self@, pos as int / 2) =~= old_s + auth_path(self@, pos as int));
            }
            pos = pos / 2;
        }
        proof {
            assert(hashes_view(siblings@) + auth_path(self@, pos as int) =~= hashes_view(siblings@));
        }
        MerkleProof { siblings }
    }

    /// Check a Merkle proof: hash the leaf, combine it with the siblings on the
    /// way up, and compare with the root.
    pub fn verify(root: &[u8; 32], index: usize, leaf_data: &[u8], proof: &MerkleProof, num_leaves: usize) -> (r: bool)
        requires
            num_leaves + index <= usize::MAX,
        ensures
            r == (merkle_fold(sha256_spec(leaf_data@), num_leaves + index, hashes_view(proof.siblings@)) == root@),
    {
        let mut current = hash_bytes(leaf_data);
        let mut pos = num_leaves + index;
        let ghost sibs = hashes_view(proof.siblings@);
        let mut i: usize = 0;
        proof {
            assert(sibs.subrange(0, sibs.len() as int) =~= sibs);
        }
        while i < proof.siblings.len()
            invariant
                i <= proof.siblings.len(),
                sibs == hashes_view(proof.siblings@),
                merkle_fold(sha256_spec(leaf_data@), num_leaves + index, sibs) == merkle_fold(
                    current@,
                    pos as int,
                    sibs.subrange(i as int, sibs.len() as int),
                ),
            decreases proof.siblings.len() - i,
        {
            let sibling = &proof.siblings[i];
            let ghost rest = sibs.subrange(i as int, sibs.len() as int);
            if pos % 2 == 0 {
                current = hash_pair(&current, sibling);
            } else {
                current = hash_pair(sibling, &current);
            }
            proof {
                assert(rest[0] == sibling@);
                assert(rest.drop_first() =~= sibs.subrange(i + 1, sibs.len() as int));
            }
            pos = pos / 2;
            i += 1;
        }
        proof {
            assert(sibs.subrange(i as int, sibs.len() as int).len() == 0);
        }
        bytes32_eq(&current, root)
    }
}

impl Clone for MerkleTree {
    fn clone(&self) -> (r: MerkleTree)
        ensures
            r@ == self@,
    {
        proof {
            use_type_invariant(self);
        }
        let mut nodes: Vec<[u8; 32]> = Vec::new();
        let mut i: usize = 0;
        while i < self.nodes.len()
            invariant
                i <= self.nodes.len(),
                nodes@ == self.nodes@.subrange(0, i as int),
            decreases self.nodes.len() - i,
        {
            nodes.push(self.nodes[i]);
            i += 1;
        }
        proof {
            assert(nodes@ =~= self.nodes@);
        }
        let r = MerkleTree { nodes, num_leaves: self.num_leaves };
        proof {
            assert(r@ =~= self@);
        }
        r
    }
}

/// Completeness of Merkle proofs: folding a node's value with its
/// authentication path gives the root.
pub proof fn lemma_merkle_fold_auth_path(lh: Seq<Seq<u8>>, pos: int)
    requires
        lh.len() >= 1,
        1 <= pos < 2 * lh.len(),
    ensures
        merkle_fold(merkle_node(lh, pos), pos, auth_path(lh, pos)) == merkle_node(lh, 1),
    decreases pos,
{
    if pos > 1 {
        let parent = pos / 2;
        let path = auth_path(lh, pos);
        assert(path[0] == merkle_node(lh, sibling(pos)));
        assert(path.drop_first() =~= auth_path(lh, parent));
        if pos % 2 == 0 {
            assert(2 * parent == pos);
        } else {
            assert(2 * parent + 1 == pos);
        }
        assert(merkle_node(lh, parent) == sha256_spec(merkle_node(lh, 2 * parent) + merkle_node(lh, 2 * parent + 1)));
        lemma_merkle_fold_auth_path(lh, parent);
    }
}

/// A power of two is 2^m for some m.
pub proof fn lemma_pow2_log(n: int) -> (m: nat)
    requires
        is_pow2(n),
    ensures
        pow2(m) == n,
    decreases n,
{
    reveal(is_pow2);
    if n == 1 {
        vstd::arithmetic::power2::lemma2_to64();
        0
    } else {
        let m0 = lemma_pow2_log(n / 2);
        lemma_pow2_unfold(m0 + 1);
        m0 + 1
    }
}

/// The authentication path from node pos, with 2^m <= pos < 2^(m+1), has m entries.
proof fn lemma_auth_path_len_from(lh: Seq<Seq<u8>>, pos: int, m: nat)
    requires
        pow2(m) <= pos < 2 * pow2(m),
    ensures
        auth_path(lh, pos).len() == m,
    decreases pos,
{
    vstd::arithmetic::power2::lemma_pow2_pos(m);
    if m == 0 {
        vstd::arithmetic::power2::lemma2_to64();
        assert(pos == 1);
    } else {
        lemma_pow2_unfold(m);
        lemma_auth_path_len_from(lh, pos / 2, (m - 1) as nat);
    }
}

/// The authentication path of a leaf of a tree over 2^m leaves has m
/// entries: pow2(path length) is the number of leaves.
pub proof fn lemma_auth_path_len(lh: Seq<Seq<u8>>, index: int)
    requires
        is_pow2(lh.len() as int),
        0 <= index < lh.len(),
    ensures
        pow2(auth_path(lh, lh.len() + index).len()) == lh.len(),
{
    let m = lemma_pow2_log(lh.len() as int);
    lemma_auth_path_len_from(lh, lh.len() + index, m);
}

/// Every leaf of a tree verifies against the root with its authentication path.
pub proof fn lemma_merkle_leaf_verifies(lh: Seq<Seq<u8>>, index: int)
    requires
        0 <= index < lh.len(),
    ensures
        merkle_fold(lh[index], lh.len() + index, auth_path(lh, lh.len() + index)) == merkle_node(lh, 1),
{
    lemma_merkle_fold_auth_path(lh, lh.len() + index);
}

} // verus!
