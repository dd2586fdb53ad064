//! Completeness: the verifier accepts every proof the prover produces for a
//! program whose last real instruction is HALT.
use crate::polynomial::fp_seq;
use crate::air::{cols, composition_spec};
use crate::channel::{collect_indices, lemma_collect_indices, MAX_SQUEEZES};
use crate::domain::lde_offset_spec;
use crate::field::{finv, fmod, fpow, lemma_finv, modulus, root_of_unity_spec};
use crate::folding::{coset_evals, lemma_fri_commit_low_degree};
use crate::fri::{derive_betas_spec, fdiv, layer_committed, layer_halves, layers_evals, lemma_derive_betas_commit, opening_of, FriLayer};
use crate::hash::sha256_spec;
use crate::instruction::{Instruction, Opcode};
use crate::prover::{
    composition_values, honest_proof, lde_point, lde_row, lde_values, lemma_pow2_double, lemma_transition_vanishing_nonzero_on_lde,
    next_position, num_queries, opens_position, program_bytes, query_indices_after, quotient_values, responses_of,
    trace_leaf_hashes, transition_vanishing_at, StarkProof,
};
use crate::stark_verifier::{
    lde_size_of, program_covers, ends_with_halt, response_composition, response_expected, response_ok, trace_opens,
    transcript_to_alpha, transcript_to_fri, verifier_alpha, verifier_betas, verifier_fri_ok, verifier_indices,
    verify_accepts,
};
use crate::merkle::hashes_view;
use crate::fri::{
    fold_layer, fri_accepts, fri_commit_spec, fri_layer_ok, layer_root,
    layer_size, layer_square, lemma_fri_commit_layers, lemma_fri_commit_shape, query_pos, size_halves, value_leaf_hashes,
    value_opens, verifier_fold, verifier_next, verifier_pos, FriProof,
};
use crate::merkle::{lemma_merkle_leaf_verifies, merkle_node};
use crate::prover::{evals_halves, fri_proof_of, opens_layer};
use vstd::arithmetic::power2::is_pow2;
use vstd::prelude::*;

verus! {

/// An opened layer value verifies against the layer root.
proof fn lemma_layer_opening_verifies(e: Seq<int>, lo: int, root: [u8; 32], ql: crate::fri::FriQueryLayer)
    requires
        e.len() >= 2,
        0 <= lo < e.len() / 2,
        root@ == layer_root(e),
        opens_layer(e, lo, ql),
    ensures
        value_opens(root, lo, ql.value, ql.proof, e.len() as int),
        value_opens(root, lo + e.len() / 2, ql.sibling_value, ql.sibling_proof, e.len() as int),
{
    let lh = value_leaf_hashes(e);
    lemma_merkle_leaf_verifies(lh, lo);
    lemma_merkle_leaf_verifies(lh, lo + e.len() / 2);
}

/// A FRI proof of an honest commit phase on the values of a polynomial of
/// degree below half the domain (g of order the domain size) passes every
/// check at the positions it opens, the degree check on the last layer
/// included, with the prover's challenges, which are the ones the verifier
/// derives from the proof's layer roots.
pub proof fn lemma_fri_honest_accepts(qv: Seq<int>, g: int, offset: int, state: Seq<u8>, indices: Seq<usize>, fp: FriProof, c: Seq<int>)
    requires
        is_pow2(qv.len() as int),
        qv.len() >= 2,
        2 * qv.len() <= usize::MAX,
        0 < g < modulus(),
        0 < offset < modulus(),
        fpow(g, (qv.len() / 2) as nat) == modulus() - 1,
        c.len() <= qv.len() / 2,
        qv == coset_evals(c, offset, g, qv.len()),
        indices.len() > 0,
        fri_proof_of(fri_commit_spec(qv, g, offset, state), indices, fp),
    ensures
        fri_accepts(fp, fri_commit_spec(qv, g, offset, state).1, g, offset, qv.len() as int, indices),
        fri_accepts(fp, derive_betas_spec(hashes_view(fp.layer_roots@), state).0, g, offset, qv.len() as int, indices),
{
    reveal(fri_proof_of);
    lemma_fri_commit_low_degree(c, g, offset, state, qv.len());
    lemma_derive_betas_commit(qv, g, offset, state);
    lemma_fri_commit_shape(qv, g, offset, state);
    assert(hashes_view(fp.layer_roots@) =~= Seq::new(
        fri_commit_spec(qv, g, offset, state).0.len(),
        |k: int| layer_root(fri_commit_spec(qv, g, offset, state).0[k]),
    ));
    let fri = fri_commit_spec(qv, g, offset, state);
    let size = qv.len() as int;
    let betas = fri.1;
    let nl = fri.0.len() as int;
    lemma_fri_commit_shape(qv, g, offset, state);
    lemma_fri_commit_layers(qv, g, offset, state);
    assert(size_halves(size, nl) =~= evals_halves(fri.0));
    assert forall|q: int, k: int| 0 <= q < indices.len() && 0 <= k < fp.query_proofs@[q].layers.len()
        implies #[trigger] fri_layer_ok(fp, betas, g, offset, size, indices, q, k) by {
        let e = fri.0[k];
        let halves = size_halves(size, nl);
        assert(fp.query_proofs@[q].layers.len() == nl);
        let lo = verifier_pos(fp, size, indices, q, k);
        assert(lo == query_pos(indices[q] as int, evals_halves(fri.0), k));
        assert(halves[k] == e.len() / 2);
        assert(0 <= lo < e.len() / 2) by {
            if k > 0 {
                assert(lo == query_pos(indices[q] as int, halves, k - 1) % halves[k]);
            }
        }
        let ql = fp.query_proofs@[q].layers@[k];
        assert(opens_layer(e, lo, ql));
        lemma_layer_opening_verifies(e, lo, fp.layer_roots@[k], ql);
        let folded = fold_layer(e, layer_square(offset, k), layer_square(g, k), betas[k]);
        assert(verifier_fold(fp, betas, g, offset, size, indices, q, k) == folded[lo]);
        if k + 1 < nl {
            let e2 = fri.0[k + 1];
            assert(e2 == folded);
            let h2 = halves[k + 1];
            assert(h2 == e2.len() / 2);
            assert(layer_size(size, k) / 4 == h2);
            assert(e.len() == 4 * h2) by {
                vstd::arithmetic::power2::lemma_pow2_pos(0);
                reveal(is_pow2);
                assert(is_pow2(e.len() as int));
                assert(e.len() % 2 == 0);
                assert(is_pow2((e.len() / 2) as int));
                assert((e.len() / 2) % 2 == 0);
            }
            let lo2 = query_pos(indices[q] as int, evals_halves(fri.0), k + 1);
            assert(lo2 == lo % h2);
            let next = fp.query_proofs@[q].layers@[k + 1];
            assert(opens_layer(e2, lo2, next));
            if lo < h2 {
                assert(lo % h2 == lo) by {
                    vstd::arithmetic::div_mod::lemma_small_mod(lo as nat, h2 as nat);
                }
                assert(verifier_next(fp, size, indices, q, k) == next.value);
            } else {
                assert(lo % h2 == lo - h2) by {
                    vstd::arithmetic::div_mod::lemma_mod_sub_multiples_vanish(lo, h2);
                    vstd::arithmetic::div_mod::lemma_small_mod((lo - h2) as nat, h2 as nat);
                }
                assert(verifier_next(fp, size, indices, q, k) == next.sibling_value);
            }
        } else {
            assert(k == nl - 1);
            assert(e.len() == 2);
            assert(lo == 0);
            assert(e[0] == e[1]);
        }
    }
}

/// FRI round trip: take the layers and final value that `fri_commit` gives
/// for the values of a polynomial of degree below half the domain (a coset
/// whose generator has the domain's order), a proof holding the layer roots,
/// that final value and the openings `fri_query` gives at some positions,
/// and the challenges `fri_derive_betas` draws from that proof starting from
/// the prover's initial transcript state: `fri_verify_queries` accepts them.
pub proof fn lemma_fri_roundtrip(
    evals: Seq<int>,
    g: int,
    offset: int,
    state: Seq<u8>,
    c: Seq<int>,
    layers: Seq<FriLayer>,
    fp: FriProof,
    betas: Seq<int>,
    indices: Seq<usize>,
)
    requires
        is_pow2(evals.len() as int),
        evals.len() >= 2,
        2 * evals.len() <= usize::MAX,
        0 < g < modulus(),
        0 < offset < modulus(),
        fpow(g, (evals.len() / 2) as nat) == modulus() - 1,
        c.len() <= evals.len() / 2,
        evals == coset_evals(c, offset, g, evals.len()),
        layers_evals(layers) == fri_commit_spec(evals, g, offset, state).0,
        forall|k: int| 0 <= k < layers.len() ==> #[trigger] layer_committed(layers[k]),
        fp.final_value@ == fri_commit_spec(evals, g, offset, state).2,
        fp.layer_roots.len() == layers.len(),
        forall|k: int| 0 <= k < layers.len() ==> (#[trigger] fp.layer_roots@[k]) == layers[k].root,
        indices.len() > 0,
        fp.query_proofs.len() == indices.len(),
        forall|q: int| 0 <= q < indices.len() ==> (#[trigger] fp.query_proofs@[q]).layers.len() == layers.len(),
        forall|q: int, k: int| 0 <= q < indices.len() && 0 <= k < layers.len() ==> #[trigger] opening_of(
            layers[k],
            query_pos(indices[q] as int, layer_halves(layers), k),
            fp.query_proofs@[q].layers@[k],
        ),
        betas == derive_betas_spec(hashes_view(fp.layer_roots@), state).0,
    ensures
        fri_accepts(fp, betas, g, offset, evals.len() as int, indices),
{
    let fri = fri_commit_spec(evals, g, offset, state);
    lemma_fri_commit_shape(evals, g, offset, state);
    assert(layers.len() == fri.0.len());
    assert forall|k: int| 0 <= k < fri.0.len() implies #[trigger] layers[k].evaluations.len() == fri.0[k].len() by {
        assert(layers_evals(layers)[k] == fp_seq(layers[k].evaluations@));
    }
    assert(layer_halves(layers) =~= evals_halves(fri.0));
    assert forall|k: int| 0 <= k < fri.0.len() implies #[trigger] fp.layer_roots@[k]@ == layer_root(fri.0[k]) by {
        assert(layers_evals(layers)[k] == fp_seq(layers[k].evaluations@));
        assert(layer_committed(layers[k]));
    }
    assert forall|q: int, k: int| 0 <= q < indices.len() && 0 <= k < fri.0.len() implies #[trigger] opens_layer(
        fri.0[k],
        query_pos(indices[q] as int, evals_halves(fri.0), k),
        fp.query_proofs@[q].layers@[k],
    ) by {
        assert(layers_evals(layers)[k] == fp_seq(layers[k].evaluations@));
        assert(layer_committed(layers[k]));
        let lo = query_pos(indices[q] as int, layer_halves(layers), k);
        assert(opening_of(layers[k], lo, fp.query_proofs@[q].layers@[k]));
    }
    reveal(fri_proof_of);
    assert(fri_proof_of(fri, indices, fp));
    lemma_fri_honest_accepts(evals, g, offset, state, indices, fp, c);
}

/// Dividing by a non-zero z and multiplying back gives the residue back.
proof fn lemma_div_mul_cancel(c: int, z: int)
    requires
        0 <= c < modulus(),
        0 < z < modulus(),
    ensures
        fmod(fdiv(c, z) * z) == c,
{
    broadcast use crate::field::group_fmod;
    vstd::arithmetic::div_mod::lemma_small_mod(z as nat, modulus() as nat);
    lemma_finv(z);
    let fi = finv(z);
    assert(fmod(fmod(c * fi) * z) == fmod((c * fi) * z));
    assert((c * fi) * z == c * (z * fi)) by (nonlinear_arith);
    assert(fmod(c * (z * fi)) == fmod(c * fmod(z * fi)));
    assert(c * 1 == c);
}

/// An honest FRI proof of low-degree values on the LDE coset of a trace of
/// n rows passes the FRI checks.
proof fn lemma_lde_fri_accepts(qv: Seq<int>, n: nat, state: Seq<u8>, indices: Seq<usize>, fp: FriProof)
    requires
        is_pow2(32 * n as int),
        n >= 1,
        64 * n <= 0x1_0000_0000,
        64 * n <= usize::MAX,
        indices.len() > 0,
        low_degree_on_lde(qv, n),
        fri_proof_of(fri_commit_spec(qv, root_of_unity_spec(32 * n as int), lde_offset_spec(32 * n as int), state), indices, fp),
    ensures
        fri_accepts(
            fp,
            fri_commit_spec(qv, root_of_unity_spec(32 * n as int), lde_offset_spec(32 * n as int), state).1,
            root_of_unity_spec(32 * n as int),
            lde_offset_spec(32 * n as int),
            32 * n as int,
            indices,
        ),
{
    let size = 32 * n as int;
    let g = root_of_unity_spec(size);
    let off = lde_offset_spec(size);
    vstd::arithmetic::div_mod::lemma_small_mod(7, crate::field::P as nat);
    crate::field::lemma_fpow_nonzero(7, ((crate::field::P - 1) as int / (2 * size)) as nat);
    crate::field::lemma_fpow_nonzero(7, ((crate::field::P - 1) as int / size) as nat);
    let c = choose|c: Seq<int>| c.len() <= 16 * n && qv == coset_evals(c, off, g, 32 * n);
    let k = crate::merkle::lemma_pow2_log(size);
    vstd::arithmetic::power2::lemma2_to64();
    vstd::arithmetic::power2::lemma2_to64_rest();
    if k > 32 {
        vstd::arithmetic::power2::lemma_pow2_strictly_increases(32, k);
        assert(false);
    }
    crate::field::lemma_root_of_unity(k);
    crate::field::lemma_fmod_range(vstd::arithmetic::power::pow(7, ((crate::field::P - 1) as int / (2 * size)) as nat));
    lemma_fri_honest_accepts(qv, g, off, state, indices, fp, c);
}

/// The quotient values an honest proof for the trace interpolants `polys` of
/// a trace of n rows commits to (as in `honest_proof`).
pub open spec fn honest_quotient(polys: Seq<Seq<int>>, n: nat, program: Seq<Instruction>, proof: StarkProof) -> Seq<int> {
    let s1 = program_bytes(program) + proof.trace_root@;
    quotient_values(composition_values(lde_values(polys, n), 32 * n as int, crate::channel::squeeze_value(s1)), n)
}

/// The values, on the LDE coset of a trace of n rows, of a polynomial of
/// degree below half the coset's size.
pub open spec fn low_degree_on_lde(v: Seq<int>, n: nat) -> bool {
    exists|c: Seq<int>| c.len() <= 16 * n && v == coset_evals(
        c,
        lde_offset_spec(32 * n as int),
        root_of_unity_spec(32 * n as int),
        32 * n,
    )
}

/// Completeness: every proof `prove` produces (an honest proof for some
/// interpolants of the trace columns) whose quotient is of low degree passes
/// `verify`, as long as the declared program's instruction at the last real
/// row is HALT. The quotient is of low degree when the composition
/// polynomial vanishes on every constrained row, which is what a trace that
/// satisfies the constraints gives; that step is not part of this statement.
pub proof fn lemma_stark_completeness(rows: Seq<Seq<int>>, real_len: int, program: Seq<Instruction>, polys: Seq<Seq<int>>, proof: StarkProof)
    requires
        honest_proof(rows, real_len, program, polys, proof),
        low_degree_on_lde(honest_quotient(polys, rows.len(), program, proof), rows.len()),
        is_pow2(rows.len() as int),
        64 * rows.len() <= 0x1_0000_0000,
        64 * rows.len() <= usize::MAX,
        1 <= real_len <= program.len(),
        program[real_len - 1].opcode == Opcode::Halt,
    ensures
        verify_accepts(proof),
{
    let n = rows.len();
    let size = 32 * n as int;
    let lv = lde_values(polys, n);
    let s1 = program_bytes(program) + proof.trace_root@;
    let alpha = crate::channel::squeeze_value(s1);
    let qv = quotient_values(composition_values(lv, size, alpha), n);
    let g = root_of_unity_spec(size);
    let off = lde_offset_spec(size);
    let s2 = sha256_spec(s1) + proof.quotient_root@;
    let fri = fri_commit_spec(qv, g, off, s2);
    let indices = query_indices_after(fri, size);
    // the verifier replays the prover's transcript
    assert(transcript_to_alpha(proof) == s1);
    assert(verifier_alpha(proof) == alpha);
    assert(transcript_to_fri(proof) == s2);
    lemma_pow2_double(n as int);
    lemma_pow2_double(2 * n as int);
    lemma_pow2_double(4 * n as int);
    lemma_pow2_double(8 * n as int);
    lemma_pow2_double(16 * n as int);
    assert(qv.len() == size);
    reveal(is_pow2);
    lemma_fri_commit_shape(qv, g, off, s2);
    reveal(fri_proof_of);
    assert(hashes_view(proof.fri_proof.layer_roots@) =~= Seq::new(fri.0.len(), |k: int| layer_root(fri.0[k])));
    lemma_derive_betas_commit(qv, g, off, s2);
    assert(verifier_betas(proof) == (fri.1, fri.3));
    assert(lde_size_of(proof) == size);
    assert(verifier_indices(proof) == indices);
    // FRI
    lemma_collect_indices(fri.3, num_queries(size) as nat, (size / 2) as nat, MAX_SQUEEZES as nat, Seq::empty());
    lemma_lde_fri_accepts(qv, n, s2, indices, proof.fri_proof);
    assert(verifier_fri_ok(proof));
    // the openings
    reveal(responses_of);
    assert forall|q: int| 0 <= q < verifier_indices(proof).len() implies #[trigger] response_ok(proof, q) by {
        let idx = indices[q] as int;
        let r = proof.query_responses@[q];
        assert(opens_position(lv, qv, size, idx, r));
        let next = next_position(idx, size);
        let tl = trace_leaf_hashes(lv, size);
        assert(cols(r.trace_values) =~= lde_row(lv, idx));
        assert(cols(r.trace_next_values) =~= lde_row(lv, next));
        lemma_merkle_leaf_verifies(tl, idx);
        lemma_merkle_leaf_verifies(tl, next);
        assert(trace_opens(proof.trace_root, idx, r.trace_values, r.trace_proof, size));
        assert(trace_opens(proof.trace_root, next, r.trace_next_values, r.trace_next_proof, size));
        lemma_merkle_leaf_verifies(value_leaf_hashes(qv), idx);
        let c = composition_values(lv, size, alpha)[idx];
        assert(response_composition(proof, q) == c);
        let z = transition_vanishing_at(lde_point(n, idx as nat), n);
        lemma_transition_vanishing_nonzero_on_lde(n, idx as nat);
        assert(r.quotient_value@ == fdiv(c, z));
        lemma_div_mul_cancel(c, z);
        assert(response_expected(proof, q) == c);
    }
    assert(program_covers(proof));
    assert(ends_with_halt(proof));
}

} // verus!
