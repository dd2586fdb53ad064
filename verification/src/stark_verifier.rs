//! The STARK verifier: checks a proof without re-executing the program.
//!
//! It re-derives every Fiat-Shamir challenge from the proof's commitments,
//! checks the FRI proof at its own query positions, checks the trace and
//! quotient openings there and that C(x) == Q(x) * Z(x), Z vanishing on the
//! constrained rows, and finally that
//! the declared program ends with HALT.
use crate::air::{cols, composition_spec, evaluate_composition};
use crate::channel::{collect_indices, lemma_collect_indices, lemma_le_bytes_len, le_bytes, squeeze_value, u64_le_bytes, Channel, MAX_SQUEEZES};
use crate::domain::{lde_offset_spec, Domain};
use crate::field::{fmod, root_of_unity_spec, Fp, P};
use crate::fri::{
    derive_betas_spec, fri_accepts, fri_derive_betas, last_layers_constant, fri_rejects_with, fri_verify_queries, value_opens, FriError,
    NUM_FRI_QUERIES,
};
use crate::hash::sha256_spec;
use crate::instruction::Opcode;
use crate::merkle::{hashes_view, merkle_fold, MerkleProof, MerkleTree};
use crate::prover::{
    absorb_program, lde_point, next_position, num_queries, program_bytes, values_bytes, vanishing_at, last_trace_point, transition_vanishing_at, QueryResponse,
    StarkProof, BLOWUP_FACTOR,
};
use crate::trace::NUM_COLUMNS;
use vstd::arithmetic::div_mod::*;
use vstd::arithmetic::power2::*;
use vstd::prelude::*;

verus! {

broadcast use crate::field::group_fp;

/// Why a STARK proof was rejected.
#[derive(Debug, Clone)]
pub enum VerifyError {
    /// The trace length is not a power of two, or too large for an LDE domain.
    Malformed,
    /// The FRI proof was rejected.
    Fri(FriError),
    /// The proof opens a different number of positions than there are queries.
    ResponseCountMismatch { expected: usize, got: usize },
    /// The Merkle proof of the trace values at a query does not lead to the trace root.
    TraceMerkleFailed { query: usize, index: usize },
    /// The Merkle proof of the next row's trace values does not lead to the trace root.
    TraceNextMerkleFailed { query: usize, index: usize },
    /// The Merkle proof of the quotient value does not lead to the quotient root.
    QuotientMerkleFailed { query: usize },
    /// C(x) differs from Q(x) * Z(x) at a query.
    QuotientCheckFailed { query: usize, composition: Fp, expected: Fp },
    /// The program is empty, or the number of real rows is zero or exceeds it.
    InvalidProgram,
    /// The instruction at the last real row is not HALT.
    MissingHalt,
}

// ---------------------------------------------------------------------------
// What the verifier derives and checks
// ---------------------------------------------------------------------------

/// The size of the LDE domain the proof is over.
pub open spec fn lde_size_of(proof: StarkProof) -> int {
    32 * proof.trace_length
}

/// The transcript when the composition challenge is drawn: the program, then the trace root.
pub open spec fn transcript_to_alpha(proof: StarkProof) -> Seq<u8> {
    program_bytes(proof.program@) + proof.trace_root@
}

/// The composition challenge.
pub open spec fn verifier_alpha(proof: StarkProof) -> int {
    squeeze_value(transcript_to_alpha(proof))
}

/// The transcript when the FRI commit phase starts: the quotient root absorbed after the challenge.
pub open spec fn transcript_to_fri(proof: StarkProof) -> Seq<u8> {
    sha256_spec(transcript_to_alpha(proof)) + proof.quotient_root@
}

/// The folding challenges and the transcript after the FRI layer roots.
pub open spec fn verifier_betas(proof: StarkProof) -> (Seq<int>, Seq<u8>) {
    derive_betas_spec(hashes_view(proof.fri_proof.layer_roots@), transcript_to_fri(proof))
}

/// The query positions the verifier derives.
pub open spec fn verifier_indices(proof: StarkProof) -> Seq<usize> {
    collect_indices(
        verifier_betas(proof).1,
        num_queries(lde_size_of(proof)) as nat,
        (lde_size_of(proof) / 2) as nat,
        MAX_SQUEEZES as nat,
        Seq::empty(),
    ).0
}

/// The FRI proof passes at the verifier's query positions.
pub open spec fn verifier_fri_ok(proof: StarkProof) -> bool {
    let size = lde_size_of(proof);
    fri_accepts(proof.fri_proof, verifier_betas(proof).0, root_of_unity_spec(size), lde_offset_spec(size), size, verifier_indices(proof))
}

/// The Merkle proof `mp` opens the trace values `values` at leaf `index` of a tree of `size` leaves with root `root`.
pub open spec fn trace_opens(root: [u8; 32], index: int, values: [Fp; NUM_COLUMNS], mp: MerkleProof, size: int) -> bool {
    merkle_fold(sha256_spec(values_bytes(cols(values))), size + index, hashes_view(mp.siblings@)) == root@
}

/// The composition at query q, from the opened trace values.
pub open spec fn response_composition(proof: StarkProof, q: int) -> int {
    let r = proof.query_responses@[q];
    composition_spec(cols(r.trace_values), cols(r.trace_next_values), verifier_alpha(proof))
}

/// Q(x) * Z(x) at query q, from the opened quotient value, with Z the
/// vanishing polynomial of the constrained rows.
pub open spec fn response_expected(proof: StarkProof, q: int) -> int {
    let n = proof.trace_length as nat;
    let r = proof.query_responses@[q];
    fmod(r.quotient_value@ * transition_vanishing_at(lde_point(n, verifier_indices(proof)[q] as nat), n))
}

/// All checks of query q pass: the three Merkle openings and C(x) == Q(x) * Z(x).
pub open spec fn response_ok(proof: StarkProof, q: int) -> bool {
    let size = lde_size_of(proof);
    let idx = verifier_indices(proof)[q] as int;
    let r = proof.query_responses@[q];
    &&& trace_opens(proof.trace_root, idx, r.trace_values, r.trace_proof, size)
    &&& trace_opens(proof.trace_root, next_position(idx, size), r.trace_next_values, r.trace_next_proof, size)
    &&& value_opens(proof.quotient_root, idx, r.quotient_value, r.quotient_proof, size)
    &&& response_composition(proof, q) == response_expected(proof, q)
}

/// The error the first failing check of query q reports.
pub open spec fn response_error(proof: StarkProof, q: int, e: VerifyError) -> bool {
    let size = lde_size_of(proof);
    let idx = verifier_indices(proof)[q] as int;
    let r = proof.query_responses@[q];
    if !trace_opens(proof.trace_root, idx, r.trace_values, r.trace_proof, size) {
        e == VerifyError::TraceMerkleFailed { query: q as usize, index: idx as usize }
    } else if !trace_opens(proof.trace_root, next_position(idx, size), r.trace_next_values, r.trace_next_proof, size) {
        e == VerifyError::TraceNextMerkleFailed { query: q as usize, index: next_position(idx, size) as usize }
    } else if !value_opens(proof.quotient_root, idx, r.quotient_value, r.quotient_proof, size) {
        e == VerifyError::QuotientMerkleFailed { query: q as usize }
    } else {
        e matches VerifyError::QuotientCheckFailed { query, composition, expected }
            && query == q && composition@ == response_composition(proof, q) && expected@ == response_expected(proof, q)
    }
}

/// The program is non-empty and covers the real rows.
pub open spec fn program_covers(proof: StarkProof) -> bool {
    proof.program.len() > 0 && 1 <= proof.real_trace_length <= proof.program.len()
}

/// The instruction at the last real row is HALT.
pub open spec fn ends_with_halt(proof: StarkProof) -> bool {
    proof.program@[proof.real_trace_length - 1].opcode == Opcode::Halt
}

/// The trace length is a power of two whose LDE coset (32 times larger,
/// with an offset of twice that order) exists in the field and can be addressed.
pub open spec fn proof_shape_ok(proof: StarkProof) -> bool {
    &&& is_pow2(proof.trace_length as int)
    &&& 64 * proof.trace_length <= 0x1_0000_0000
    &&& 64 * proof.trace_length <= usize::MAX
}

/// Every check passes.
pub open spec fn verify_accepts(proof: StarkProof) -> bool {
    &&& proof_shape_ok(proof)
    &&& verifier_fri_ok(proof)
    &&& proof.query_responses.len() == verifier_indices(proof).len()
    &&& forall|q: int| 0 <= q < verifier_indices(proof).len() ==> #[trigger] response_ok(proof, q)
    &&& program_covers(proof)
    &&& ends_with_halt(proof)
}

/// The error a rejected proof is reported with: the first check that fails.
pub open spec fn verify_rejects_with(proof: StarkProof, e: VerifyError) -> bool {
    let size = lde_size_of(proof);
    let indices = verifier_indices(proof);
    if !proof_shape_ok(proof) {
        e == VerifyError::Malformed
    } else if !verifier_fri_ok(proof) {
        e matches VerifyError::Fri(fe) && fri_rejects_with(
            proof.fri_proof,
            verifier_betas(proof).0,
            root_of_unity_spec(size),
            lde_offset_spec(size),
            size,
            indices,
            fe,
        )
    } else if proof.query_responses.len() != indices.len() {
        e == VerifyError::ResponseCountMismatch { expected: indices.len() as usize, got: proof.query_responses.len() }
    } else if exists|q: int| 0 <= q < indices.len() && !#[trigger] response_ok(proof, q) {
        exists|q: int| {
            &&& 0 <= q < indices.len()
            &&& !#[trigger] response_ok(proof, q)
            &&& response_error(proof, q, e)
            &&& forall|q2: int| 0 <= q2 < q ==> #[trigger] response_ok(proof, q2)
        }
    } else if !program_covers(proof) {
        e == VerifyError::InvalidProgram
    } else {
        e == VerifyError::MissingHalt
    }
}

// ---------------------------------------------------------------------------
// Checking
// ---------------------------------------------------------------------------

/// Whether n is a power of two.
fn is_power_of_two(n: usize) -> (r: bool)
    ensures
        r == is_pow2(n as int),
{
    if n == 0 {
        proof {
            reveal(is_pow2);
        }
        return false;
    }
    let mut m = n;
    while m > 1 && m % 2 == 0
        invariant
            m >= 1,
            is_pow2(m as int) == is_pow2(n as int),
        decreases m,
    {
        proof {
            reveal(is_pow2);
        }
        m = m / 2;
    }
    proof {
        reveal(is_pow2);
    }
    m == 1
}

/// Encode trace values as the bytes of a Merkle leaf: eight little-endian bytes per column.
fn encode_trace_values(values: &[Fp; NUM_COLUMNS]) -> (r: Vec<u8>)
    ensures
        r@ == values_bytes(cols(*values)),
{
    let ghost row = cols(*values);
    let mut data: Vec<u8> = Vec::new();
    let mut col: usize = 0;
    proof {
        assert(row.subrange(0, 0) =~= Seq::<int>::empty());
    }
    while col < NUM_COLUMNS
        invariant
            row == cols(*values),
            row.len() == NUM_COLUMNS,
            col <= NUM_COLUMNS,
            data@ == values_bytes(row.subrange(0, col as int)),
        decreases NUM_COLUMNS - col,
    {
        let bytes = u64_le_bytes(values[col].value());
        let ghost d0 = data@;
        proof {
            lemma_le_bytes_len(values@[col as int]@ as nat, 8);
        }
        let mut k: usize = 0;
        while k < 8
            invariant
                k <= 8,
                bytes@.len() == 8,
                data@ == d0 + bytes@.subrange(0, k as int),
            decreases 8 - k,
        {
            data.push(bytes[k]);
            proof {
                assert(d0 + bytes@.subrange(0, k + 1) =~= (d0 + bytes@.subrange(0, k as int)).push(bytes@[k as int]));
            }
            k += 1;
        }
        proof {
            let sub = row.subrange(0, col + 1);
            assert(sub.drop_last() =~= row.subrange(0, col as int));
            assert(sub.last() == values@[col as int]@);
            assert(bytes@.subrange(0, 8) =~= bytes@);
        }
        col += 1;
    }
    proof {
        assert(row.subrange(0, NUM_COLUMNS as int) =~= row);
    }
    data
}

/// Check the trace and quotient openings of every query, in order.
fn check_responses(
    proof: &StarkProof,
    indices: &Vec<usize>,
    alpha: Fp,
    lde_elements: &Vec<Fp>,
    n: usize,
    lde_size: usize,
    w_last: Fp,
) -> (r: Result<(), VerifyError>)
    requires
        is_pow2(n as int),
        64 * n <= 0x1_0000_0000,
        w_last@ == last_trace_point(n as nat),
        indices@ == verifier_indices(*proof),
        alpha@ == verifier_alpha(*proof),
        proof.query_responses.len() == indices.len(),
        n == proof.trace_length,
        lde_size == 32 * n,
        64 * n <= usize::MAX,
        lde_elements.len() == lde_size,
        forall|i: int| 0 <= i < lde_size ==> (#[trigger] lde_elements@[i])@ == lde_point(n as nat, i as nat),
        forall|q: int| 0 <= q < indices.len() ==> (#[trigger] indices@[q]) < lde_size / 2,
    ensures
        r is Ok <==> forall|q: int| 0 <= q < indices.len() ==> #[trigger] response_ok(*proof, q),
        r matches Err(e) ==> exists|q: int| {
            &&& 0 <= q < indices.len()
            &&& !#[trigger] response_ok(*proof, q)
            &&& response_error(*proof, q, e)
            &&& forall|q2: int| 0 <= q2 < q ==> #[trigger] response_ok(*proof, q2)
        },
{
    let mut q: usize = 0;
    while q < indices.len()
        invariant
            indices@ == verifier_indices(*proof),
            alpha@ == verifier_alpha(*proof),
            proof.query_responses.len() == indices.len(),
            n == proof.trace_length,
            lde_size == 32 * n,
            64 * n <= usize::MAX,
            is_pow2(n as int),
            64 * n <= 0x1_0000_0000,
            w_last@ == last_trace_point(n as nat),
            lde_elements.len() == lde_size,
            forall|i: int| 0 <= i < lde_size ==> (#[trigger] lde_elements@[i])@ == lde_point(n as nat, i as nat),
            forall|q: int| 0 <= q < indices.len() ==> (#[trigger] indices@[q]) < lde_size / 2,
            q <= indices.len(),
            forall|q2: int| 0 <= q2 < q ==> #[trigger] response_ok(*proof, q2),
        decreases indices.len() - q,
    {
        let qr = &proof.query_responses[q];
        let idx = indices[q];
        let next_idx = (idx + BLOWUP_FACTOR) % lde_size;
        let trace_leaf = encode_trace_values(&qr.trace_values);
        if !MerkleTree::verify(&proof.trace_root, idx, trace_leaf.as_slice(), &qr.trace_proof, lde_size) {
            let err = VerifyError::TraceMerkleFailed { query: q, index: idx };
            proof {
                assert(!response_ok(*proof, q as int));
                assert(response_error(*proof, q as int, err));
            }
            return Err(err);
        }
        let trace_next_leaf = encode_trace_values(&qr.trace_next_values);
        if !MerkleTree::verify(&proof.trace_root, next_idx, trace_next_leaf.as_slice(), &qr.trace_next_proof, lde_size) {
            let err = VerifyError::TraceNextMerkleFailed { query: q, index: next_idx };
            proof {
                assert(!response_ok(*proof, q as int));
                assert(response_error(*proof, q as int, err));
            }
            return Err(err);
        }
        let quotient_leaf = u64_le_bytes(qr.quotient_value.value());
        if !MerkleTree::verify(&proof.quotient_root, idx, quotient_leaf.as_slice(), &qr.quotient_proof, lde_size) {
            let err = VerifyError::QuotientMerkleFailed { query: q };
            proof {
                assert(!response_ok(*proof, q as int));
                assert(response_error(*proof, q as int, err));
            }
            return Err(err);
        }
        let composition_value = evaluate_composition(&qr.trace_values, &qr.trace_next_values, alpha);
        let x = lde_elements[idx];
        let z_h = x.pow(n as u64) - Fp::one();
        let den = x - w_last;
        proof {
            crate::prover::lemma_transition_vanishing_nonzero_on_lde(n as nat, idx as nat);
            assert(z_h@ == vanishing_at(lde_point(n as nat, idx as nat), n as nat));
        }
        let z = z_h * den.inv();
        let expected = qr.quotient_value * z;
        proof {
            assert(z@ == transition_vanishing_at(lde_point(n as nat, idx as nat), n as nat));
            assert(composition_value@ == response_composition(*proof, q as int));
            assert(expected@ == response_expected(*proof, q as int));
        }
        if composition_value != expected {
            let err = VerifyError::QuotientCheckFailed { query: q, composition: composition_value, expected };
            proof {
                assert(!response_ok(*proof, q as int));
                assert(response_error(*proof, q as int, err));
            }
            return Err(err);
        }
        proof {
            assert(response_ok(*proof, q as int));
        }
        q += 1;
    }
    Ok(())
}

/// Verify a STARK proof: re-derive the Fiat-Shamir challenges from the
/// commitments, check the FRI proof at the verifier's own query positions,
/// check the trace and quotient openings there and C(x) == Q(x) * Z(x), and
/// check that the declared program ends with HALT at the last real row.
/// A trace length that is not a power of two, or too large, is rejected
/// before anything else. The claimed outputs are not checked against the
/// trace. The FRI check includes the degree check: the committed quotient
/// must fold to a constant last layer, as a polynomial of degree below half
/// the LDE domain does. The quotient is such a polynomial when the
/// composition vanishes on every constrained row; when a transition breaks a
/// constraint it is not, and the query positions that Fiat-Shamir draws
/// catch that except with small probability.
pub fn verify(proof: &StarkProof) -> (r: Result<(), VerifyError>)
    ensures
        r is Ok <==> verify_accepts(*proof),
        r matches Err(e) ==> verify_rejects_with(*proof, e),
        r is Ok ==> proof.query_responses.len() == num_queries(lde_size_of(*proof)),
        r is Ok ==> proof.fri_proof.query_proofs.len() == num_queries(lde_size_of(*proof)),
        r is Ok ==> last_layers_constant(proof.fri_proof),
{
    let n = proof.trace_length;
    if !is_power_of_two(n) || n > 0x400_0000 || n > usize::MAX / 64 {
        return Err(VerifyError::Malformed);
    }
    let lde_size = n * BLOWUP_FACTOR;
    proof {
        reveal(is_pow2);
        crate::prover::lemma_pow2_double(n as int);
        crate::prover::lemma_pow2_double(2 * n as int);
        crate::prover::lemma_pow2_double(4 * n as int);
        crate::prover::lemma_pow2_double(8 * n as int);
        crate::prover::lemma_pow2_double(16 * n as int);
    }
    let lde_domain = Domain::lde_domain(n, BLOWUP_FACTOR);
    let lde_elements = lde_domain.elements();
    let mut channel = Channel::new();
    absorb_program(&mut channel, proof.program.as_slice());
    channel.absorb(&proof.trace_root);
    proof {
        assert(Seq::<u8>::empty() + program_bytes(proof.program@) =~= program_bytes(proof.program@));
    }
    let alpha = channel.squeeze_field();
    channel.absorb(&proof.quotient_root);
    let fri_betas = fri_derive_betas(&proof.fri_proof, &mut channel);
    let max_queries = if lde_size / 4 < NUM_FRI_QUERIES {
        lde_size / 4
    } else {
        NUM_FRI_QUERIES
    };
    let query_indices = channel.squeeze_indices(max_queries, lde_size / 2);
    let ghost size = lde_size as int;
    proof {
        assert(query_indices@ == verifier_indices(*proof));
        assert(crate::polynomial::fp_seq(fri_betas@) == verifier_betas(*proof).0);
        lemma_collect_indices(verifier_betas(*proof).1, max_queries as nat, (lde_size / 2) as nat, MAX_SQUEEZES as nat, Seq::empty());
    }
    let fri_result = fri_verify_queries(
        &proof.fri_proof,
        fri_betas.as_slice(),
        lde_domain.generator,
        lde_domain.offset,
        lde_size,
        query_indices.as_slice(),
    );
    match fri_result {
        Err(e) => {
            return Err(VerifyError::Fri(e));
        },
        Ok(()) => {},
    }
    if proof.query_responses.len() != query_indices.len() {
        return Err(VerifyError::ResponseCountMismatch { expected: query_indices.len(), got: proof.query_responses.len() });
    }
    let w_last = Fp::root_of_unity(n as u64).pow((n - 1) as u64);
    let checked = check_responses(proof, &query_indices, alpha, &lde_elements, n, lde_size, w_last);
    match checked {
        Err(e) => {
            return Err(e);
        },
        Ok(()) => {},
    }
    if proof.program.len() == 0 || proof.real_trace_length == 0 || proof.real_trace_length > proof.program.len() {
        return Err(VerifyError::InvalidProgram);
    }
    let last_instr = &proof.program[proof.real_trace_length - 1];
    if last_instr.opcode != Opcode::Halt {
        return Err(VerifyError::MissingHalt);
    }
    Ok(())
}

// ---------------------------------------------------------------------------
// What the verdict depends on
// ---------------------------------------------------------------------------

/// Two openings that agree in everything the verifier reads: the opened
/// values and their Merkle proofs (the claimed position may differ).
pub open spec fn responses_agree(a: QueryResponse, b: QueryResponse) -> bool {
    &&& a.trace_values == b.trace_values
    &&& a.trace_next_values == b.trace_next_values
    &&& a.trace_proof == b.trace_proof
    &&& a.trace_next_proof == b.trace_next_proof
    &&& a.quotient_value == b.quotient_value
    &&& a.quotient_proof == b.quotient_proof
}

/// Two proofs that differ at most in their claimed outputs, their claimed
/// query positions and the positions their openings claim.
pub open spec fn differ_in_claims_only(p1: StarkProof, p2: StarkProof) -> bool {
    &&& p1.trace_root == p2.trace_root
    &&& p1.quotient_root == p2.quotient_root
    &&& p1.fri_proof == p2.fri_proof
    &&& p1.program@ == p2.program@
    &&& p1.trace_length == p2.trace_length
    &&& p1.real_trace_length == p2.real_trace_length
    &&& p1.query_responses.len() == p2.query_responses.len()
    &&& forall|k: int| 0 <= k < p1.query_responses.len()
        ==> #[trigger] responses_agree(p1.query_responses@[k], p2.query_responses@[k])
}

/// The verdict ignores the claims a proof carries: the claimed outputs are
/// not checked, and the verifier derives its own query positions rather
/// than reading the proof's. Two proofs that differ only there are accepted
/// together, and rejected with the same errors.
pub proof fn lemma_verify_ignores_claims(p1: StarkProof, p2: StarkProof)
    requires
        differ_in_claims_only(p1, p2),
    ensures
        verify_accepts(p1) == verify_accepts(p2),
        forall|e: VerifyError| verify_rejects_with(p1, e) == verify_rejects_with(p2, e),
{
    assert(transcript_to_alpha(p1) == transcript_to_alpha(p2));
    assert(verifier_betas(p1) == verifier_betas(p2));
    assert(verifier_indices(p1) == verifier_indices(p2));
    assert forall|q: int| 0 <= q < p1.query_responses.len() implies response_ok(p1, q) == response_ok(p2, q)
        && (forall|e: VerifyError| response_error(p1, q, e) == response_error(p2, q, e)) by {
        assert(responses_agree(p1.query_responses@[q], p2.query_responses@[q]));
    }
}

} // verus!
