//! FRI (Fast Reed-Solomon Interactive Oracle Proof): the low-degree test.
//!
//! A function on a coset domain of size 2m is folded into one on a domain of
//! size m: with f(x) = f_even(x^2) + x * f_odd(x^2),
//!   f_folded(x^2) = f_even(x^2) + beta * f_odd(x^2),
//! where f_even(x^2) = (f(x) + f(-x)) / 2 and f_odd(x^2) = (f(x) - f(-x)) / (2x).
//! The prover commits to each layer with a Merkle tree and folds down to one
//! value; the verifier checks the folding at queried positions, and that the
//! last layer, of two values, is constant. That is the degree bound: the
//! values of a polynomial of degree below half the domain fold to a
//! constant last layer.
use crate::channel::{le_bytes, squeeze_value, u64_le_bytes, Channel};
use crate::domain::domain_point;
use crate::field::{finv, fmod, fpow, lemma_finv_mod, lemma_fmul_nonzero, lemma_fpow_nonzero, Fp, P};
use crate::hash::sha256_spec;
use crate::merkle::{auth_path, hashes_view, merkle_fold, merkle_node, MerkleProof, MerkleTree};
use crate::polynomial::fp_seq;
use vstd::arithmetic::div_mod::*;
use vstd::arithmetic::power::*;
use vstd::arithmetic::power2::*;
use vstd::prelude::*;

verus! {

broadcast use crate::field::group_fp;

/// Number of FRI queries (each gives about 3 bits of security at blowup 8).
pub const NUM_FRI_QUERIES: usize = 30;

/// One layer of the FRI commitment, as the prover keeps it.
#[derive(Debug, Clone)]
pub struct FriLayer {
    /// Merkle root of this layer's evaluations.
    pub root: [u8; 32],
    /// The evaluations of this layer.
    pub evaluations: Vec<Fp>,
    /// The Merkle tree over the evaluations.
    pub tree: MerkleTree,
}

/// The complete FRI proof.
#[derive(Debug, Clone)]
pub struct FriProof {
    /// Merkle root of each folding layer.
    pub layer_roots: Vec<[u8; 32]>,
    /// The final constant after all folding rounds.
    pub final_value: Fp,
    /// For each query, the openings at every layer.
    pub query_proofs: Vec<FriQueryProof>,
}

/// The openings of one query across the layers.
#[derive(Debug, Clone)]
pub struct FriQueryProof {
    pub layers: Vec<FriQueryLayer>,
}

/// The opening of one query in one layer: the value at the queried position,
/// the value at its partner position half a domain away, and their Merkle proofs.
#[derive(Debug, Clone)]
pub struct FriQueryLayer {
    pub value: Fp,
    pub sibling_value: Fp,
    pub proof: MerkleProof,
    pub sibling_proof: MerkleProof,
}

/// Why a FRI proof was rejected.
#[derive(Debug, Clone)]
pub enum FriError {
    /// No query positions were given.
    NoQueries,
    /// The proof opens a different number of queries than asked for.
    QueryCountMismatch { expected: usize, got: usize },
    /// The proof does not fit the domain: no layer roots, fewer challenges
    /// than roots, a last layer of other than two positions, a domain too
    /// large to address, or a zero generator or offset.
    Malformed,
    /// A query opens a different number of layers than were committed.
    LayerCountMismatch { query: usize, expected: usize, got: usize },
    /// The Merkle proof of a queried value does not lead to the layer root.
    MerkleProofFailed { query: usize, layer: usize, index: usize },
    /// The Merkle proof of a partner value does not lead to the layer root.
    SiblingMerkleProofFailed { query: usize, layer: usize, index: usize },
    /// Folding two opened values does not give the value opened in the next layer.
    FoldingMismatch { query: usize, layer: usize, expected: Fp, got: Fp },
    /// The two values opened in the last layer differ: the last layer is not
    /// constant, so the committed function is not of low degree.
    LastLayerNotConstant { query: usize, value: Fp, sibling: Fp },
    /// Folding the last opened pair does not give the claimed final value.
    FinalValueMismatch { query: usize, expected: Fp, got: Fp },
}

// ---------------------------------------------------------------------------
// The folding rule
// ---------------------------------------------------------------------------

/// Field division a / b, through the Fermat inverse.
pub open spec fn fdiv(a: int, b: int) -> int {
    fmod(a * finv(b))
}

/// Folding the values a = f(d) and b = f(-d) with challenge beta:
/// (a + b) / 2 + beta * (a - b) / (2d).
pub open spec fn fold_pair(a: int, b: int, d: int, beta: int) -> int {
    fmod(fdiv(a + b, 2) + beta * fdiv(a - b, 2 * d))
}

/// Folding a whole layer on the coset offset * <g>: position i pairs with
/// position i + half, the point -d_i of the coset.
pub open spec fn fold_layer(e: Seq<int>, offset: int, g: int, beta: int) -> Seq<int> {
    let half = e.len() / 2;
    Seq::new(half, |i: int| fold_pair(e[i], e[i + half], domain_point(offset, g, i as nat), beta))
}

/// The Merkle leaf hashes of a layer: each value hashed as its eight
/// little-endian bytes.
pub open spec fn value_leaf_hashes(e: Seq<int>) -> Seq<Seq<u8>> {
    Seq::new(e.len(), |k: int| sha256_spec(le_bytes(e[k] as nat, 8)))
}

/// The Merkle root of a layer.
pub open spec fn layer_root(e: Seq<int>) -> Seq<u8> {
    merkle_node(value_leaf_hashes(e), 1)
}

/// The commit phase on evaluations `e` over the coset offset * <g>, from
/// transcript state `state`: the layers committed, the challenges drawn, the
/// final value and the final transcript state. Each layer's root is absorbed
/// and a challenge squeezed; layers of two values end the folding.
pub open spec fn fri_commit_spec(e: Seq<int>, g: int, offset: int, state: Seq<u8>) -> (Seq<Seq<int>>, Seq<int>, int, Seq<u8>)
    decreases e.len(),
{
    if e.len() <= 1 {
        (Seq::empty(), Seq::empty(), e[0], state)
    } else {
        let s1 = state + layer_root(e);
        let beta = squeeze_value(s1);
        let s2 = sha256_spec(s1);
        let folded = fold_layer(e, offset, g, beta);
        if e.len() <= 2 {
            (seq![e], seq![beta], folded[0], s2)
        } else {
            let rest = fri_commit_spec(folded, fmod(g * g), fmod(offset * offset), s2);
            (seq![e] + rest.0, seq![beta] + rest.1, rest.2, rest.3)
        }
    }
}

/// The evaluations of each layer.
pub open spec fn layers_evals(layers: Seq<FriLayer>) -> Seq<Seq<int>> {
    layers.map_values(|l: FriLayer| fp_seq(l.evaluations@))
}

/// A layer as `fri_commit` builds it: its root and tree commit to its evaluations.
pub open spec fn layer_committed(l: FriLayer) -> bool {
    &&& l.tree@ == value_leaf_hashes(fp_seq(l.evaluations@))
    &&& l.root@ == layer_root(fp_seq(l.evaluations@))
}

// ---------------------------------------------------------------------------
// Executable helpers
// ---------------------------------------------------------------------------

/// Fold one pair of values: (a + b) / 2 + beta * (a - b) / (2d).
fn fold_values(a: Fp, b: Fp, d: Fp, beta: Fp) -> (r: Fp)
    requires
        d@ != 0,
    ensures
        r@ == fold_pair(a@, b@, d@, beta@),
{
    broadcast use crate::field::group_fmod;
    let two = Fp::new(2);
    proof {
        lemma_small_mod(2, P as nat);
        lemma_fmul_nonzero(2, d@);
    }
    let two_inv = two.inv();
    let f_even = (a + b) * two_inv;
    let f_odd = (a - b) * (two * d).inv();
    let r = f_even + beta * f_odd;
    proof {
        lemma_finv_mod(2 * d@);
        assert(f_even@ == fdiv(a@ + b@, 2));
        assert(f_odd@ == fdiv(a@ - b@, 2 * d@));
    }
    r
}

/// The leaf data of a layer: each value as its eight little-endian bytes.
pub(crate) fn value_leaves(v: &Vec<Fp>) -> (r: Vec<Vec<u8>>)
    ensures
        r.len() == v.len(),
        forall|k: int| 0 <= k < v.len() ==> (#[trigger] r[k])@ == le_bytes(v[k]@ as nat, 8),
{
    let mut r: Vec<Vec<u8>> = Vec::new();
    let mut i: usize = 0;
    while i < v.len()
        invariant
            i <= v.len(),
            r.len() == i,
            forall|k: int| 0 <= k < i ==> (#[trigger] r[k])@ == le_bytes(v[k]@ as nat, 8),
        decreases v.len() - i,
    {
        r.push(u64_le_bytes(v[i].value()));
        i += 1;
    }
    r
}

/// A copy of a vector of field elements.
fn copy_values(v: &[Fp]) -> (r: Vec<Fp>)
    ensures
        r@ == v@,
{
    let mut r: Vec<Fp> = Vec::new();
    let mut i: usize = 0;
    while i < v.len()
        invariant
            i <= v.len(),
            r@ == v@.subrange(0, i as int),
        decreases v.len() - i,
    {
        r.push(v[i]);
        i += 1;
    }
    proof {
        assert(v@.subrange(0, v.len() as int) =~= v@);
    }
    r
}

/// Commit to a layer: its Merkle tree and root.
pub(crate) fn commit_layer(evals: &Vec<Fp>) -> (l: FriLayer)
    requires
        is_pow2(evals.len() as int),
        2 * evals.len() <= usize::MAX,
    ensures
        l.evaluations@ == evals@,
        layer_committed(l),
{
    let leaves = value_leaves(evals);
    let tree = MerkleTree::new(leaves.as_slice());
    let root = tree.root();
    proof {
        assert(tree@ =~= value_leaf_hashes(fp_seq(evals@)));
    }
    FriLayer { root, evaluations: copy_values(evals.as_slice()), tree }
}

/// Fold a layer on the coset offset * <g> with challenge beta.
fn fold_evaluations(evals: &Vec<Fp>, g: Fp, offset: Fp, beta: Fp) -> (r: Vec<Fp>)
    requires
        evals.len() >= 2 ==> offset@ != 0,
        evals.len() >= 4 ==> g@ != 0,
    ensures
        fp_seq(r@) == fold_layer(fp_seq(evals@), offset@, g@, beta@),
{
    let half = evals.len() / 2;
    let mut folded: Vec<Fp> = Vec::new();
    let mut i: usize = 0;
    let ghost e = fp_seq(evals@);
    while i < half
        invariant
            half == evals.len() / 2,
            e == fp_seq(evals@),
            i <= half,
            evals.len() >= 2 ==> offset@ != 0,
            evals.len() >= 4 ==> g@ != 0,
            folded.len() == i,
            forall|k: int| 0 <= k < i ==> (#[trigger] folded[k])@ == fold_layer(e, offset@, g@, beta@)[k],
        decreases half - i,
    {
        let d = offset * g.pow(i as u64);
        proof {
            broadcast use crate::field::group_fmod;
            if i == 0 {
                lemma_pow0(g@);
                lemma_small_mod(1, P as nat);
                assert(fpow(g@, 0) == 1);
                assert(d@ == fmod(offset@));
            } else {
                lemma_fpow_nonzero(g@, i as nat);
                lemma_fmul_nonzero(offset@, fpow(g@, i as nat));
            }
            assert(d@ == domain_point(offset@, g@, i as nat));
        }
        folded.push(fold_values(evals[i], evals[i + half], d, beta));
        i += 1;
    }
    proof {
        assert(fp_seq(folded@) =~= fold_layer(e, offset@, g@, beta@));
    }
    folded
}

// ---------------------------------------------------------------------------
// Commit phase
// ---------------------------------------------------------------------------

/// FRI commit phase: fold the evaluations on the coset
/// `domain_offset * <domain_generator>` down to a single value. Each layer's
/// Merkle root is absorbed into the channel and a folding challenge squeezed.
/// Returns the committed layers and the final value.
pub fn fri_commit(evaluations: &[Fp], domain_generator: Fp, domain_offset: Fp, channel: &mut Channel) -> (r: (Vec<FriLayer>, Fp))
    requires
        is_pow2(evaluations.len() as int),
        2 * evaluations.len() <= usize::MAX,
        evaluations.len() >= 2 ==> domain_offset@ != 0,
        evaluations.len() >= 4 ==> domain_generator@ != 0,
    ensures
        ({
            let spec = fri_commit_spec(fp_seq(evaluations@), domain_generator@, domain_offset@, old(channel)@);
            &&& layers_evals(r.0@) == spec.0
            &&& r.1@ == spec.2
            &&& final(channel)@ == spec.3
        }),
        forall|k: int| 0 <= k < r.0.len() ==> #[trigger] layer_committed(r.0@[k]),
{
    let ghost target = fri_commit_spec(fp_seq(evaluations@), domain_generator@, domain_offset@, channel@);
    let mut layers: Vec<FriLayer> = Vec::new();
    let mut current = copy_values(evaluations);
    let mut g = domain_generator;
    let mut offset = domain_offset;
    proof {
        reveal(is_pow2);
        assert(layers_evals(layers@) + target.0 =~= target.0);
    }
    loop
        invariant
            target == fri_commit_spec(fp_seq(evaluations@), domain_generator@, domain_offset@, old(channel)@),
            current.len() >= 1,
            is_pow2(current.len() as int),
            2 * current.len() <= usize::MAX,
            current.len() >= 2 ==> offset@ != 0,
            current.len() >= 4 ==> g@ != 0,
            forall|k: int| 0 <= k < layers.len() ==> #[trigger] layer_committed(layers@[k]),
            ({
                let rest = fri_commit_spec(fp_seq(current@), g@, offset@, channel@);
                &&& layers_evals(layers@) + rest.0 == target.0
                &&& rest.2 == target.2
                &&& rest.3 == target.3
            }),
        decreases current.len(),
    {
        let ghost e = fp_seq(current@);
        let ghost s0 = channel@;
        if current.len() == 1 {
            proof {
                assert(layers_evals(layers@) + Seq::<Seq<int>>::empty() =~= layers_evals(layers@));
                assert(e[0] == current@[0]@);
            }
            return (layers, current[0]);
        }
        let layer = commit_layer(&current);
        channel.absorb(&layer.root);
        let ghost before = layers@;
        layers.push(layer);
        let beta = channel.squeeze_field();
        let folded = fold_evaluations(&current, g, offset, beta);
        proof {
            reveal(is_pow2);
            assert(layers_evals(layers@) =~= layers_evals(before).push(e));
        }
        proof {
            assert(fp_seq(folded@).len() == folded@.len());
        }
        if current.len() == 2 {
            proof {
                assert(fp_seq(folded@)[0] == folded@[0]@);
                assert(layers_evals(before) + seq![e] =~= layers_evals(layers@));
            }
            return (layers, folded[0]);
        }
        proof {
            let rest = fri_commit_spec(fp_seq(folded@), fmod(g@ * g@), fmod(offset@ * offset@), channel@);
            assert(layers_evals(before) + (seq![e] + rest.0) =~= layers_evals(layers@) + rest.0);
            if g@ != 0 {
                lemma_fmul_nonzero(g@, g@);
            }
            lemma_fmul_nonzero(offset@, offset@);
        }
        g = g * g;
        offset = offset * offset;
        current = folded;
    }
}

// ---------------------------------------------------------------------------
// Query phase
// ---------------------------------------------------------------------------

/// The position a query opens in layer k: the query index reduced into the
/// first half of each successive layer, given the half-sizes of the layers.
pub open spec fn query_pos(idx: int, halves: Seq<int>, k: int) -> int
    decreases k,
{
    if k <= 0 {
        idx % halves[0]
    } else {
        query_pos(idx, halves, k - 1) % halves[k]
    }
}

/// The half-sizes of the committed layers.
pub open spec fn layer_halves(layers: Seq<FriLayer>) -> Seq<int> {
    layers.map_values(|l: FriLayer| (l.evaluations.len() / 2) as int)
}

/// The opening of one layer at position lo, as `fri_query` gives it.
pub open spec fn opening_of(l: FriLayer, lo: int, ql: FriQueryLayer) -> bool {
    let half = l.evaluations.len() / 2;
    &&& ql.value == l.evaluations@[lo]
    &&& ql.sibling_value == l.evaluations@[lo + half]
    &&& hashes_view(ql.proof.siblings@) == auth_path(l.tree@, l.tree@.len() + lo)
    &&& hashes_view(ql.sibling_proof.siblings@) == auth_path(l.tree@, l.tree@.len() + lo + half)
}

/// Layers that can be queried: at least two values, and a tree with a leaf for each.
pub open spec fn layers_queryable(layers: Seq<FriLayer>) -> bool {
    forall|k: int| 0 <= k < layers.len() ==> {
        &&& (#[trigger] layers[k]).evaluations.len() >= 2
        &&& 2 * (layers[k].evaluations.len() / 2) <= layers[k].tree@.len()
    }
}

/// The openings of one query in every layer.
fn query_layers(layers: &[FriLayer], initial_idx: usize) -> (r: FriQueryProof)
    requires
        layers_queryable(layers@),
    ensures
        r.layers.len() == layers.len(),
        forall|k: int| 0 <= k < layers.len() ==> #[trigger] opening_of(
            layers@[k],
            query_pos(initial_idx as int, layer_halves(layers@), k),
            r.layers@[k],
        ),
{
    let mut layer_proofs: Vec<FriQueryLayer> = Vec::new();
    let mut idx = initial_idx;
    let mut k: usize = 0;
    let ghost halves = layer_halves(layers@);
    while k < layers.len()
        invariant
            layers_queryable(layers@),
            halves == layer_halves(layers@),
            k <= layers.len(),
            layer_proofs.len() == k,
            k > 0 ==> idx as int == query_pos(initial_idx as int, halves, k - 1),
            k == 0 ==> idx == initial_idx,
            forall|j: int| 0 <= j < k ==> #[trigger] opening_of(layers@[j], query_pos(initial_idx as int, halves, j), layer_proofs@[j]),
        decreases layers.len() - k,
    {
        let layer = &layers[k];
        proof {
            assert(layers@[k as int].evaluations.len() >= 2);
        }
        let half = layer.evaluations.len() / 2;
        let lo = idx % half;
        let hi = lo + half;
        proof {
            assert(halves[k as int] == half);
            assert(lo as int == query_pos(initial_idx as int, halves, k as int));
        }
        let ql = FriQueryLayer {
            value: layer.evaluations[lo],
            sibling_value: layer.evaluations[hi],
            proof: layer.tree.prove(lo),
            sibling_proof: layer.tree.prove(hi),
        };
        layer_proofs.push(ql);
        idx = lo;
        k += 1;
    }
    FriQueryProof { layers: layer_proofs }
}

/// FRI query phase: open every layer at each queried position (and at its
/// partner half a layer away), with Merkle proofs.
pub fn fri_query(layers: &[FriLayer], query_indices: &[usize]) -> (r: Vec<FriQueryProof>)
    requires
        layers_queryable(layers@),
    ensures
        r.len() == query_indices.len(),
        forall|q: int| 0 <= q < r.len() ==> (#[trigger] r@[q]).layers.len() == layers.len(),
        forall|q: int, k: int| 0 <= q < r.len() && 0 <= k < layers.len() ==> #[trigger] opening_of(
            layers@[k],
            query_pos(query_indices@[q] as int, layer_halves(layers@), k),
            r@[q].layers@[k],
        ),
{
    let mut proofs: Vec<FriQueryProof> = Vec::new();
    let mut q: usize = 0;
    while q < query_indices.len()
        invariant
            layers_queryable(layers@),
            q <= query_indices.len(),
            proofs.len() == q,
            forall|j: int| 0 <= j < q ==> (#[trigger] proofs@[j]).layers.len() == layers.len(),
            forall|j: int, k: int| 0 <= j < q && 0 <= k < layers.len() ==> #[trigger] opening_of(
                layers@[k],
                query_pos(query_indices@[j] as int, layer_halves(layers@), k),
                proofs@[j].layers@[k],
            ),
        decreases query_indices.len() - q,
    {
        let p = query_layers(layers, query_indices[q]);
        proofs.push(p);
        q += 1;
    }
    proofs
}

// ---------------------------------------------------------------------------
// Verification
// ---------------------------------------------------------------------------

/// The challenges the verifier derives from the layer roots: each root is
/// absorbed and one challenge squeezed. Returns the challenges and the final
/// transcript state.
pub open spec fn derive_betas_spec(roots: Seq<Seq<u8>>, state: Seq<u8>) -> (Seq<int>, Seq<u8>)
    decreases roots.len(),
{
    if roots.len() == 0 {
        (Seq::empty(), state)
    } else {
        let s1 = state + roots[0];
        let rest = derive_betas_spec(roots.drop_first(), sha256_spec(s1));
        (seq![squeeze_value(s1)] + rest.0, rest.1)
    }
}

/// FRI commit-phase replay: absorb each layer root and squeeze a folding
/// challenge after it, as the prover's transcript did.
pub fn fri_derive_betas(proof: &FriProof, channel: &mut Channel) -> (betas: Vec<Fp>)
    ensures
        (fp_seq(betas@), final(channel)@) == derive_betas_spec(hashes_view(proof.layer_roots@), old(channel)@),
        betas.len() == proof.layer_roots.len(),
{
    let ghost roots = hashes_view(proof.layer_roots@);
    let ghost target = derive_betas_spec(roots, channel@);
    let num_layers = proof.layer_roots.len();
    let mut betas: Vec<Fp> = Vec::new();
    let mut i: usize = 0;
    proof {
        assert(roots.skip(0) =~= roots);
        assert(fp_seq(betas@) + target.0 =~= target.0);
    }
    while i < num_layers
        invariant
            num_layers == proof.layer_roots.len(),
            roots == hashes_view(proof.layer_roots@),
            i <= num_layers,
            betas.len() == i,
            ({
                let rest = derive_betas_spec(roots.skip(i as int), channel@);
                &&& fp_seq(betas@) + rest.0 == target.0
                &&& rest.1 == target.1
            }),
        decreases num_layers - i,
    {
        let ghost s0 = channel@;
        let ghost before = betas@;
        channel.absorb(&proof.layer_roots[i]);
        let b = channel.squeeze_field();
        betas.push(b);
        proof {
            assert(roots.skip(i as int)[0] == roots[i as int]);
            assert(roots.skip(i as int).drop_first() =~= roots.skip(i + 1));
            let rest = derive_betas_spec(roots.skip(i + 1), channel@);
            assert(fp_seq(betas@) + rest.0 =~= fp_seq(before) + (seq![b@] + rest.0));
        }
        i += 1;
    }
    proof {
        assert(roots.skip(i as int).len() == 0);
        assert(fp_seq(betas@) + Seq::<int>::empty() =~= fp_seq(betas@));
    }
    betas
}

/// The size of layer k: the initial size halved k times.
pub open spec fn layer_size(size: int, k: int) -> int
    decreases k,
{
    if k <= 0 {
        size
    } else {
        layer_size(size, k - 1) / 2
    }
}

/// x squared k times in the field: the generator or offset of layer k.
pub open spec fn layer_square(x: int, k: int) -> int
    decreases k,
{
    if k <= 0 {
        x
    } else {
        fmod(layer_square(x, k - 1) * layer_square(x, k - 1))
    }
}

/// The half-sizes of the first n layers of a domain of the given size.
pub open spec fn size_halves(size: int, n: int) -> Seq<int> {
    Seq::new(n as nat, |k: int| layer_size(size, k) / 2)
}

/// The Merkle proof `mp` opens value `v` at leaf `index` of a tree of `n` leaves with root `root`.
pub open spec fn value_opens(root: [u8; 32], index: int, v: Fp, mp: MerkleProof, n: int) -> bool {
    merkle_fold(sha256_spec(le_bytes(v@ as nat, 8)), n + index, hashes_view(mp.siblings@)) == root@
}

/// The position query q opens in layer k, as the verifier computes it.
pub open spec fn verifier_pos(proof: FriProof, size: int, indices: Seq<usize>, q: int, k: int) -> int {
    query_pos(indices[q] as int, size_halves(size, proof.query_proofs@[q].layers.len() as int), k)
}

/// The value that folding the pair opened by query q in layer k gives.
pub open spec fn verifier_fold(proof: FriProof, betas: Seq<int>, g: int, offset: int, size: int, indices: Seq<usize>, q: int, k: int) -> int {
    let ql = proof.query_proofs@[q].layers@[k];
    let lo = verifier_pos(proof, size, indices, q, k);
    fold_pair(ql.value@, ql.sibling_value@, domain_point(layer_square(offset, k), layer_square(g, k), lo as nat), betas[k])
}

/// The value query q opens in layer k + 1 at the folded position.
pub open spec fn verifier_next(proof: FriProof, size: int, indices: Seq<usize>, q: int, k: int) -> Fp {
    let lo = verifier_pos(proof, size, indices, q, k);
    let next = proof.query_proofs@[q].layers@[k + 1];
    if lo == lo % (layer_size(size, k) / 4) {
        next.value
    } else {
        next.sibling_value
    }
}

/// All checks of query q in layer k pass: both Merkle openings, and the fold
/// matches the next layer's opening (or the final value after the last layer).
pub open spec fn fri_layer_ok(proof: FriProof, betas: Seq<int>, g: int, offset: int, size: int, indices: Seq<usize>, q: int, k: int) -> bool {
    let qp = proof.query_proofs@[q];
    let ql = qp.layers@[k];
    let n = layer_size(size, k);
    let lo = verifier_pos(proof, size, indices, q, k);
    let root = proof.layer_roots@[k];
    &&& value_opens(root, lo, ql.value, ql.proof, n)
    &&& value_opens(root, lo + n / 2, ql.sibling_value, ql.sibling_proof, n)
    &&& if k + 1 < qp.layers.len() {
        verifier_fold(proof, betas, g, offset, size, indices, q, k) == verifier_next(proof, size, indices, q, k)@
    } else {
        &&& ql.value@ == ql.sibling_value@
        &&& verifier_fold(proof, betas, g, offset, size, indices, q, k) == proof.final_value@
    }
}

/// The error that the first failing check of query q in layer k reports.
pub open spec fn fri_layer_error(proof: FriProof, betas: Seq<int>, g: int, offset: int, size: int, indices: Seq<usize>, q: int, k: int, e: FriError) -> bool {
    let qp = proof.query_proofs@[q];
    let ql = qp.layers@[k];
    let n = layer_size(size, k);
    let lo = verifier_pos(proof, size, indices, q, k);
    let root = proof.layer_roots@[k];
    let expected = verifier_fold(proof, betas, g, offset, size, indices, q, k);
    if !value_opens(root, lo, ql.value, ql.proof, n) {
        e == FriError::MerkleProofFailed { query: q as usize, layer: k as usize, index: lo as usize }
    } else if !value_opens(root, lo + n / 2, ql.sibling_value, ql.sibling_proof, n) {
        e == FriError::SiblingMerkleProofFailed { query: q as usize, layer: k as usize, index: (lo + n / 2) as usize }
    } else if k + 1 < qp.layers.len() {
        e matches FriError::FoldingMismatch { query, layer, expected: x, got }
            && query == q && layer == k && x@ == expected && got == verifier_next(proof, size, indices, q, k)
    } else if ql.value@ != ql.sibling_value@ {
        e == FriError::LastLayerNotConstant { query: q as usize, value: ql.value, sibling: ql.sibling_value }
    } else {
        e matches FriError::FinalValueMismatch { query, expected: x, got }
            && query == q && x@ == expected && got == proof.final_value
    }
}

/// Query q can be checked in layer k without failing an operation: the layer
/// has a root and a challenge, at least two positions (four when another
/// layer follows), and a non-zero folding point.
pub open spec fn fri_layer_checkable(proof: FriProof, num_betas: int, g: int, offset: int, size: int, indices: Seq<usize>, q: int, k: int) -> bool {
    &&& k < proof.layer_roots.len()
    &&& k < num_betas
    &&& layer_size(size, k) >= 2
    &&& k + 1 < proof.query_proofs@[q].layers.len() ==> layer_size(size, k) >= 4
    &&& domain_point(layer_square(offset, k), layer_square(g, k), verifier_pos(proof, size, indices, q, k) as nat) != 0
}

/// The proof fits a domain of the given size: the doubled size is
/// addressable, there is at least one layer root, a challenge for each root,
/// the layers fold down to a last layer of two positions (where the degree
/// check takes place), and the coset's generator and offset are non-zero.
pub open spec fn fri_shape_ok(proof: FriProof, num_betas: int, g: int, offset: int, size: int) -> bool {
    &&& 2 * size <= usize::MAX
    &&& proof.layer_roots.len() >= 1
    &&& num_betas >= proof.layer_roots.len()
    &&& layer_size(size, proof.layer_roots.len() - 1) == 2
    &&& g != 0
    &&& offset != 0
}

/// Decide `fri_shape_ok`.
fn fri_shape_check(proof: &FriProof, num_betas: usize, g: Fp, offset: Fp, size: usize) -> (r: bool)
    ensures
        r == fri_shape_ok(*proof, num_betas as int, g@, offset@, size as int),
{
    if size > usize::MAX / 2 {
        return false;
    }
    let nl = proof.layer_roots.len();
    if nl == 0 || num_betas < nl {
        return false;
    }
    if g.value() == 0 || offset.value() == 0 {
        return false;
    }
    let mut s = size;
    let mut k: usize = 0;
    while k + 1 < nl
        invariant
            k < nl,
            s as int == layer_size(size as int, k as int),
        decreases nl - k,
    {
        s = s / 2;
        k += 1;
    }
    s == 2
}

/// Halving never grows the size.
pub proof fn lemma_layer_size_mono(size: int, a: int, b: int)
    requires
        size >= 0,
        0 <= a <= b,
    ensures
        0 <= layer_size(size, b) <= layer_size(size, a),
    decreases b,
{
    if b > a {
        lemma_layer_size_mono(size, a, b - 1);
    } else if b > 0 {
        lemma_layer_size_mono(size, 0, b - 1);
    }
}

/// Under a well-shaped proof, every committed layer has at least two
/// positions, and four when another layer follows.
pub proof fn lemma_shape_layer_sizes(size: int, num_layers: int, k: int)
    requires
        size >= 0,
        num_layers >= 1,
        layer_size(size, num_layers - 1) == 2,
        0 <= k < num_layers,
    ensures
        layer_size(size, k) >= 2,
        k + 1 < num_layers ==> layer_size(size, k) >= 4,
{
    lemma_layer_size_mono(size, k, num_layers - 1);
    if k + 1 < num_layers {
        lemma_layer_size_mono(size, k + 1, num_layers - 1);
        assert(layer_size(size, k + 1) == layer_size(size, k) / 2);
    }
}

/// Each layer of a query that opens every committed layer of a well-shaped
/// proof can be checked.
proof fn lemma_layer_checkable(proof: FriProof, num_betas: int, g: int, offset: int, size: int, indices: Seq<usize>, q: int, k: int)
    requires
        fri_shape_ok(proof, num_betas, g, offset, size),
        0 < g < crate::field::modulus(),
        0 < offset < crate::field::modulus(),
        size >= 0,
        0 <= q < proof.query_proofs.len(),
        proof.query_proofs@[q].layers.len() == proof.layer_roots.len(),
        0 <= k < proof.layer_roots.len(),
    ensures
        fri_layer_checkable(proof, num_betas, g, offset, size, indices, q, k),
{
    lemma_shape_layer_sizes(size, proof.layer_roots.len() as int, k);
    lemma_layer_square_nonzero(g, k);
    lemma_layer_square_nonzero(offset, k);
    let lo = verifier_pos(proof, size, indices, q, k);
    lemma_domain_point_nonzero(layer_square(offset, k), layer_square(g, k), lo as nat);
}

/// Check one query across its layers.
fn check_query(
    proof: &FriProof,
    betas: &[Fp],
    g0: Fp,
    offset0: Fp,
    size0: usize,
    indices: &[usize],
    q: usize,
) -> (r: Result<(), FriError>)
    requires
        q < proof.query_proofs.len(),
        q < indices.len(),
        fri_shape_ok(*proof, betas@.len() as int, g0@, offset0@, size0 as int),
        0 < g0@ < crate::field::modulus(),
        0 < offset0@ < crate::field::modulus(),
        proof.query_proofs@[q as int].layers.len() == proof.layer_roots.len(),
    ensures
        r is Ok <==> forall|k: int| 0 <= k < proof.query_proofs@[q as int].layers.len()
            ==> #[trigger] fri_layer_ok(*proof, fp_seq(betas@), g0@, offset0@, size0 as int, indices@, q as int, k),
        r matches Err(e) ==> exists|k: int| {
            &&& 0 <= k < proof.query_proofs@[q as int].layers.len()
            &&& !#[trigger] fri_layer_ok(*proof, fp_seq(betas@), g0@, offset0@, size0 as int, indices@, q as int, k)
            &&& fri_layer_error(*proof, fp_seq(betas@), g0@, offset0@, size0 as int, indices@, q as int, k, e)
            &&& forall|k2: int| 0 <= k2 < k ==> #[trigger] fri_layer_ok(*proof, fp_seq(betas@), g0@, offset0@, size0 as int, indices@, q as int, k2)
        },
{
    let query_proof = &proof.query_proofs[q];
    let nl = query_proof.layers.len();
    let ghost halves = size_halves(size0 as int, nl as int);
    let mut idx = indices[q];
    let mut generator = g0;
    let mut offset = offset0;
    let mut size = size0;
    let mut layer_idx: usize = 0;
    while layer_idx < nl
        invariant
            q < proof.query_proofs.len(),
            q < indices.len(),
            fri_shape_ok(*proof, betas@.len() as int, g0@, offset0@, size0 as int),
            0 < g0@ < crate::field::modulus(),
            0 < offset0@ < crate::field::modulus(),
            proof.query_proofs@[q as int].layers.len() == proof.layer_roots.len(),
            query_proof == proof.query_proofs@[q as int],
            nl == query_proof.layers.len(),
            halves == size_halves(size0 as int, nl as int),
            layer_idx <= nl,
            size as int == layer_size(size0 as int, layer_idx as int),
            size <= size0,
            generator@ == layer_square(g0@, layer_idx as int),
            offset@ == layer_square(offset0@, layer_idx as int),
            layer_idx == 0 ==> idx == indices@[q as int],
            layer_idx > 0 ==> idx as int == query_pos(indices@[q as int] as int, halves, layer_idx - 1),
            forall|k2: int| 0 <= k2 < layer_idx ==> #[trigger] fri_layer_ok(*proof, fp_seq(betas@), g0@, offset0@, size0 as int, indices@, q as int, k2),
        decreases nl - layer_idx,
    {
        let ghost k = layer_idx as int;
        proof {
            lemma_layer_checkable(*proof, betas@.len() as int, g0@, offset0@, size0 as int, indices@, q as int, k);
        }
        let ql = &query_proof.layers[layer_idx];
        let half = size / 2;
        let lo = idx % half;
        let hi = lo + half;
        proof {
            assert(halves[k] == half);
            assert(lo as int == verifier_pos(*proof, size0 as int, indices@, q as int, k));
        }
        let lo_data = u64_le_bytes(ql.value.value());
        let hi_data = u64_le_bytes(ql.sibling_value.value());
        if !MerkleTree::verify(&proof.layer_roots[layer_idx], lo, lo_data.as_slice(), &ql.proof, size) {
            let err = FriError::MerkleProofFailed { query: q, layer: layer_idx, index: lo };
            proof {
                assert(!fri_layer_ok(*proof, fp_seq(betas@), g0@, offset0@, size0 as int, indices@, q as int, k));
                assert(fri_layer_error(*proof, fp_seq(betas@), g0@, offset0@, size0 as int, indices@, q as int, k, err));
            }
            return Err(err);
        }
        if !MerkleTree::verify(&proof.layer_roots[layer_idx], hi, hi_data.as_slice(), &ql.sibling_proof, size) {
            let err = FriError::SiblingMerkleProofFailed { query: q, layer: layer_idx, index: hi };
            proof {
                assert(!fri_layer_ok(*proof, fp_seq(betas@), g0@, offset0@, size0 as int, indices@, q as int, k));
                assert(fri_layer_error(*proof, fp_seq(betas@), g0@, offset0@, size0 as int, indices@, q as int, k, err));
            }
            return Err(err);
        }
        let d = offset * generator.pow(lo as u64);
        let beta = betas[layer_idx];
        let expected = fold_values(ql.value, ql.sibling_value, d, beta);
        if layer_idx + 1 < nl {
            let next_lo = lo % (half / 2);
            let actual = if lo == next_lo {
                query_proof.layers[layer_idx + 1].value
            } else {
                query_proof.layers[layer_idx + 1].sibling_value
            };
            proof {
                assert(actual == verifier_next(*proof, size0 as int, indices@, q as int, k));
            }
            if expected != actual {
                let err = FriError::FoldingMismatch { query: q, layer: layer_idx, expected, got: actual };
            proof {
                assert(!fri_layer_ok(*proof, fp_seq(betas@), g0@, offset0@, size0 as int, indices@, q as int, k));
                assert(fri_layer_error(*proof, fp_seq(betas@), g0@, offset0@, size0 as int, indices@, q as int, k, err));
            }
            return Err(err);
            }
        } else {
            if ql.value != ql.sibling_value {
                let err = FriError::LastLayerNotConstant { query: q, value: ql.value, sibling: ql.sibling_value };
                proof {
                    assert(!fri_layer_ok(*proof, fp_seq(betas@), g0@, offset0@, size0 as int, indices@, q as int, k));
                    assert(fri_layer_error(*proof, fp_seq(betas@), g0@, offset0@, size0 as int, indices@, q as int, k, err));
                }
                return Err(err);
            }
            if expected != proof.final_value {
                let err = FriError::FinalValueMismatch { query: q, expected, got: proof.final_value };
            proof {
                assert(!fri_layer_ok(*proof, fp_seq(betas@), g0@, offset0@, size0 as int, indices@, q as int, k));
                assert(fri_layer_error(*proof, fp_seq(betas@), g0@, offset0@, size0 as int, indices@, q as int, k, err));
            }
            return Err(err);
            }
        }
        proof {
            assert(fri_layer_ok(*proof, fp_seq(betas@), g0@, offset0@, size0 as int, indices@, q as int, k));
        }
        generator = generator * generator;
        offset = offset * offset;
        size = half;
        idx = lo;
        layer_idx += 1;
    }
    Ok(())
}

/// The proof fits the domain, every query opens every committed layer, and
/// every check passes, the degree check on the last layer among them.
pub open spec fn fri_accepts(proof: FriProof, betas: Seq<int>, g: int, offset: int, size: int, indices: Seq<usize>) -> bool {
    &&& indices.len() > 0
    &&& indices.len() == proof.query_proofs.len()
    &&& fri_shape_ok(proof, betas.len() as int, g, offset, size)
    &&& forall|q: int| 0 <= q < indices.len() ==> (#[trigger] proof.query_proofs@[q]).layers.len() == proof.layer_roots.len()
    &&& forall|q: int, k: int| 0 <= q < indices.len() && 0 <= k < proof.query_proofs@[q].layers.len()
        ==> #[trigger] fri_layer_ok(proof, betas, g, offset, size, indices, q, k)
}

/// The degree check: every query opens the same value at both positions of
/// the last layer, so that layer (two positions) is constant, as the folds of
/// the values of a polynomial of degree below half the domain are.
pub open spec fn last_layers_constant(proof: FriProof) -> bool {
    forall|q: int| 0 <= q < proof.query_proofs.len()
        ==> (#[trigger] proof.query_proofs@[q]).layers@[proof.query_proofs@[q].layers.len() - 1].value@
            == proof.query_proofs@[q].layers@[proof.query_proofs@[q].layers.len() - 1].sibling_value@
}

/// The error that query q fails with: a layer count other than the number of
/// committed layers, or else its first failing layer check.
pub open spec fn fri_query_error(proof: FriProof, betas: Seq<int>, g: int, offset: int, size: int, indices: Seq<usize>, q: int, e: FriError) -> bool {
    let qp = proof.query_proofs@[q];
    if qp.layers.len() != proof.layer_roots.len() {
        e == FriError::LayerCountMismatch { query: q as usize, expected: proof.layer_roots.len(), got: qp.layers.len() }
    } else {
        exists|k: int| {
            &&& 0 <= k < qp.layers.len()
            &&& !#[trigger] fri_layer_ok(proof, betas, g, offset, size, indices, q, k)
            &&& fri_layer_error(proof, betas, g, offset, size, indices, q, k, e)
            &&& forall|k2: int| 0 <= k2 < k ==> #[trigger] fri_layer_ok(proof, betas, g, offset, size, indices, q, k2)
        }
    }
}

/// The error a rejected proof is reported with: no queries, a query count
/// that does not match, a proof that does not fit the domain, or the first
/// failing query (queries in order) with its error.
pub open spec fn fri_rejects_with(proof: FriProof, betas: Seq<int>, g: int, offset: int, size: int, indices: Seq<usize>, e: FriError) -> bool {
    if indices.len() == 0 {
        e == FriError::NoQueries
    } else if indices.len() != proof.query_proofs.len() {
        e == FriError::QueryCountMismatch { expected: indices.len() as usize, got: proof.query_proofs.len() }
    } else if !fri_shape_ok(proof, betas.len() as int, g, offset, size) {
        e == FriError::Malformed
    } else {
        exists|q: int| {
            &&& 0 <= q < indices.len()
            &&& #[trigger] fri_query_error(proof, betas, g, offset, size, indices, q, e)
            &&& forall|q2: int| 0 <= q2 < q ==> (#[trigger] proof.query_proofs@[q2]).layers.len() == proof.layer_roots.len()
            &&& forall|q2: int, k2: int| 0 <= q2 < q && 0 <= k2 < proof.query_proofs@[q2].layers.len()
                ==> #[trigger] fri_layer_ok(proof, betas, g, offset, size, indices, q2, k2)
        }
    }
}

/// FRI query-phase verification: check that the proof fits the domain, then
/// at each derived query position that the query opens every committed
/// layer, the Merkle openings of every layer, that folding each opened pair
/// gives the next layer's value, that the last layer is constant (the degree
/// check), and finally the claimed final value.
/// Returns the first failure found, queries in order and layers in order
/// within a query.
pub fn fri_verify_queries(
    proof: &FriProof,
    betas: &[Fp],
    initial_domain_generator: Fp,
    initial_domain_offset: Fp,
    initial_domain_size: usize,
    query_indices: &[usize],
) -> (r: Result<(), FriError>)
    ensures
        r is Ok <==> fri_accepts(*proof, fp_seq(betas@), initial_domain_generator@, initial_domain_offset@, initial_domain_size as int, query_indices@),
        r matches Err(e) ==> fri_rejects_with(*proof, fp_seq(betas@), initial_domain_generator@, initial_domain_offset@, initial_domain_size as int, query_indices@, e),
        r is Ok ==> last_layers_constant(*proof),
        r is Ok ==> layer_size(initial_domain_size as int, proof.layer_roots.len() - 1) == 2,
{
    let ghost bv = fp_seq(betas@);
    let ghost g = initial_domain_generator@;
    let ghost o = initial_domain_offset@;
    let ghost size = initial_domain_size as int;
    if query_indices.len() == 0 {
        return Err(FriError::NoQueries);
    }
    if proof.query_proofs.len() != query_indices.len() {
        return Err(FriError::QueryCountMismatch { expected: query_indices.len(), got: proof.query_proofs.len() });
    }
    if !fri_shape_check(proof, betas.len(), initial_domain_generator, initial_domain_offset, initial_domain_size) {
        return Err(FriError::Malformed);
    }
    proof {
        crate::field::lemma_fp_range(initial_domain_generator);
        crate::field::lemma_fp_range(initial_domain_offset);
        assert(bv.len() == betas@.len());
    }
    let num_layers = proof.layer_roots.len();
    let mut q: usize = 0;
    while q < proof.query_proofs.len()
        invariant
            bv == fp_seq(betas@),
            bv.len() == betas@.len(),
            g == initial_domain_generator@,
            o == initial_domain_offset@,
            size == initial_domain_size as int,
            num_layers == proof.layer_roots.len(),
            query_indices.len() == proof.query_proofs.len(),
            fri_shape_ok(*proof, betas@.len() as int, g, o, size),
            0 < g < crate::field::modulus(),
            0 < o < crate::field::modulus(),
            q <= proof.query_proofs.len(),
            forall|q2: int| 0 <= q2 < q ==> (#[trigger] proof.query_proofs@[q2]).layers.len() == proof.layer_roots.len(),
            forall|q2: int, k2: int| 0 <= q2 < q && 0 <= k2 < proof.query_proofs@[q2].layers.len()
                ==> #[trigger] fri_layer_ok(*proof, bv, g, o, size, query_indices@, q2, k2),
        decreases proof.query_proofs.len() - q,
    {
        let got = proof.query_proofs[q].layers.len();
        if got != num_layers {
            let err = FriError::LayerCountMismatch { query: q, expected: num_layers, got };
            proof {
                assert(fri_query_error(*proof, bv, g, o, size, query_indices@, q as int, err));
            }
            return Err(err);
        }
        let res = check_query(proof, betas, initial_domain_generator, initial_domain_offset, initial_domain_size, query_indices, q);
        match res {
            Ok(()) => {},
            Err(e) => {
                proof {
                    assert(fri_query_error(*proof, bv, g, o, size, query_indices@, q as int, e));
                }
                return Err(e);
            },
        }
        q += 1;
    }
    proof {
        assert forall|q: int| 0 <= q < proof.query_proofs.len() implies (#[trigger] proof.query_proofs@[q]).layers@[proof.query_proofs@[q].layers.len() - 1].value@
            == proof.query_proofs@[q].layers@[proof.query_proofs@[q].layers.len() - 1].sibling_value@ by {
            assert(fri_layer_ok(*proof, bv, g, o, size, query_indices@, q, num_layers - 1));
        }
    }
    Ok(())
}

/// Halving first and then k times is halving k + 1 times.
pub proof fn lemma_layer_size_shift(n: int, k: int)
    requires
        k >= 0,
    ensures
        layer_size(n / 2, k) == layer_size(n, k + 1),
    decreases k,
{
    if k > 0 {
        lemma_layer_size_shift(n, k - 1);
        assert(layer_size(n / 2, k) == layer_size(n / 2, k - 1) / 2);
        assert(layer_size(n, k + 1) == layer_size(n, k) / 2);
    } else {
        assert(layer_size(n, 0) == n);
        assert(layer_size(n, 1) == layer_size(n, 0) / 2);
    }
}

/// The shape of the commit phase on 2^m values: layer k holds
/// 2^m / 2^k >= 2 values, the last layer two, and one challenge is drawn per layer.
pub proof fn lemma_fri_commit_shape(e: Seq<int>, g: int, offset: int, state: Seq<u8>)
    requires
        is_pow2(e.len() as int),
    ensures
        ({
            let r = fri_commit_spec(e, g, offset, state);
            &&& r.0.len() == r.1.len()
            &&& forall|k: int| 0 <= k < r.0.len() ==> (#[trigger] r.0[k]).len() == layer_size(e.len() as int, k)
            &&& forall|k: int| 0 <= k < r.0.len() ==> (#[trigger] r.0[k]).len() >= 2
            &&& forall|k: int| 0 <= k < r.0.len() ==> is_pow2((#[trigger] r.0[k]).len() as int)
            &&& (e.len() >= 2 ==> r.0.len() >= 1 && layer_size(e.len() as int, r.0.len() - 1) == 2)
            &&& (e.len() < 2 ==> r.0.len() == 0)
        }),
    decreases e.len(),
{
    reveal(is_pow2);
    let r = fri_commit_spec(e, g, offset, state);
    if e.len() > 2 {
        let s1 = state + layer_root(e);
        let beta = squeeze_value(s1);
        let folded = fold_layer(e, offset, g, beta);
        lemma_fri_commit_shape(folded, fmod(g * g), fmod(offset * offset), sha256_spec(s1));
        let rest = fri_commit_spec(folded, fmod(g * g), fmod(offset * offset), sha256_spec(s1));
        assert(r.0 == seq![e] + rest.0);
        assert forall|k: int| 0 <= k < r.0.len() implies (#[trigger] r.0[k]).len() == layer_size(e.len() as int, k) by {
            if k > 0 {
                assert(r.0[k] == rest.0[k - 1]);
                lemma_layer_size_shift(e.len() as int, k - 1);
            }
        }
        assert forall|k: int| 0 <= k < r.0.len() implies is_pow2((#[trigger] r.0[k]).len() as int) by {
            if k > 0 {
                assert(r.0[k] == rest.0[k - 1]);
            }
        }
        lemma_layer_size_shift(e.len() as int, rest.0.len() - 1);
    }
}

/// Squaring a non-zero residue any number of times leaves a non-zero residue.
pub proof fn lemma_layer_square_nonzero(x: int, k: int)
    requires
        0 < x < crate::field::modulus(),
    ensures
        0 < layer_square(x, k) < crate::field::modulus(),
    decreases k,
{
    if k > 0 {
        lemma_layer_square_nonzero(x, k - 1);
        let y = layer_square(x, k - 1);
        lemma_small_mod(y as nat, P as nat);
        lemma_fmul_nonzero(y, y);
        crate::field::lemma_fmod_range(y * y);
    }
}

/// Points of a coset with non-zero offset and generator are non-zero.
pub proof fn lemma_domain_point_nonzero(offset: int, g: int, i: nat)
    requires
        0 < offset < crate::field::modulus(),
        0 < g < crate::field::modulus(),
    ensures
        domain_point(offset, g, i) != 0,
{
    lemma_small_mod(g as nat, P as nat);
    lemma_small_mod(offset as nat, P as nat);
    lemma_fpow_nonzero(g, i);
    let f = fpow(g, i);
    crate::field::lemma_fmod_range(pow(g, i));
    lemma_small_mod(f as nat, P as nat);
    lemma_fmul_nonzero(offset, f);
}

// ---------------------------------------------------------------------------
// Honest proofs pass
// ---------------------------------------------------------------------------

/// Squaring first and then k times is squaring k + 1 times.
pub proof fn lemma_layer_square_shift(x: int, k: int)
    requires
        k >= 0,
    ensures
        layer_square(fmod(x * x), k) == layer_square(x, k + 1),
    decreases k,
{
    if k > 0 {
        lemma_layer_square_shift(x, k - 1);
    } else {
        assert(layer_square(x, 1) == fmod(layer_square(x, 0) * layer_square(x, 0)));
    }
}

/// The layers of the commit phase: the first is the input, each next one
/// folds the previous on the squared coset with that layer's challenge, and
/// the final value folds the last (two-value) layer.
pub proof fn lemma_fri_commit_layers(e: Seq<int>, g: int, offset: int, state: Seq<u8>)
    requires
        is_pow2(e.len() as int),
        e.len() >= 2,
    ensures
        ({
            let r = fri_commit_spec(e, g, offset, state);
            &&& r.0.len() >= 1
            &&& r.0[0] == e
            &&& forall|k: int| 0 <= k < r.0.len() - 1 ==> #[trigger] r.0[k + 1] == fold_layer(
                r.0[k],
                layer_square(offset, k),
                layer_square(g, k),
                r.1[k],
            )
            &&& r.2 == fold_layer(
                r.0[r.0.len() - 1],
                layer_square(offset, r.0.len() - 1),
                layer_square(g, r.0.len() - 1),
                r.1[r.0.len() - 1],
            )[0]
        }),
    decreases e.len(),
{
    reveal(is_pow2);
    lemma_fri_commit_shape(e, g, offset, state);
    let r = fri_commit_spec(e, g, offset, state);
    let s1 = state + layer_root(e);
    let beta = squeeze_value(s1);
    let folded = fold_layer(e, offset, g, beta);
    if e.len() > 2 {
        let g2 = fmod(g * g);
        let o2 = fmod(offset * offset);
        lemma_fri_commit_layers(folded, g2, o2, sha256_spec(s1));
        let rest = fri_commit_spec(folded, g2, o2, sha256_spec(s1));
        assert(r.0 == seq![e] + rest.0);
        assert(r.1 == seq![beta] + rest.1);
        lemma_fri_commit_shape(folded, g2, o2, sha256_spec(s1));
        assert forall|k: int| 0 <= k < r.0.len() - 1 implies #[trigger] r.0[k + 1] == fold_layer(
            r.0[k],
            layer_square(offset, k),
            layer_square(g, k),
            r.1[k],
        ) by {
            if k == 0 {
                assert(r.0[1] == rest.0[0]);
            } else {
                assert(r.0[k + 1] == rest.0[k]);
                assert(r.0[k] == rest.0[k - 1]);
                assert(r.1[k] == rest.1[k - 1]);
                lemma_layer_square_shift(g, k - 1);
                lemma_layer_square_shift(offset, k - 1);
            }
        }
        let last = r.0.len() - 1;
        lemma_layer_square_shift(g, last - 1);
        lemma_layer_square_shift(offset, last - 1);
        assert(r.0[last] == rest.0[last - 1]);
        assert(r.1[last] == rest.1[last - 1]);
    }
}

/// The challenges the verifier derives from the committed layer roots are
/// the prover's, and leave the transcript in the same state.
pub proof fn lemma_derive_betas_commit(e: Seq<int>, g: int, offset: int, state: Seq<u8>)
    requires
        is_pow2(e.len() as int),
    ensures
        ({
            let r = fri_commit_spec(e, g, offset, state);
            derive_betas_spec(Seq::new(r.0.len(), |k: int| layer_root(r.0[k])), state) == (r.1, r.3)
        }),
    decreases e.len(),
{
    reveal(is_pow2);
    lemma_fri_commit_shape(e, g, offset, state);
    let r = fri_commit_spec(e, g, offset, state);
    let roots = Seq::new(r.0.len(), |k: int| layer_root(r.0[k]));
    if e.len() <= 1 {
        assert(roots.len() == 0);
    } else {
        let s1 = state + layer_root(e);
        let beta = squeeze_value(s1);
        let folded = fold_layer(e, offset, g, beta);
        if e.len() <= 2 {
            assert(roots.drop_first().len() == 0);
            assert(derive_betas_spec(roots.drop_first(), sha256_spec(s1)) == (Seq::<int>::empty(), sha256_spec(s1)));
            assert(seq![beta] + Seq::<int>::empty() =~= seq![beta]);
        } else {
            let g2 = fmod(g * g);
            let o2 = fmod(offset * offset);
            lemma_derive_betas_commit(folded, g2, o2, sha256_spec(s1));
            let rest = fri_commit_spec(folded, g2, o2, sha256_spec(s1));
            assert(roots.drop_first() =~= Seq::new(rest.0.len(), |k: int| layer_root(rest.0[k])));
        }
    }
}

} // verus!
