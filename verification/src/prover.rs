//! The STARK prover: commits to the trace on a low-degree extension, builds
//! the constraint quotient, and proves it low-degree with FRI.
use crate::air::{cols, composition_spec, evaluate_composition};
use crate::channel::{collect_indices, distinct_below, lemma_collect_indices, lemma_le_bytes_len, le_bytes, squeeze_value, u64_le_bytes, Channel, MAX_SQUEEZES};
use crate::domain::{domain_point, lde_offset_spec, Domain};
use crate::field::{finv, fmod, fpow, lemma_finv, lemma_fpow_nonzero, lemma_root_of_unity, modulus, root_of_unity_spec, Fp, P};
use crate::fri::{
    commit_layer, fdiv, fri_commit, fri_commit_spec, fri_query, layer_halves, layer_root, layers_evals, lemma_fri_commit_shape,
    query_pos, value_leaf_hashes, FriLayer, FriProof, FriQueryLayer, FriQueryProof, NUM_FRI_QUERIES,
};
use crate::hash::sha256_spec;
use crate::instruction::{opcode_code, Instruction};
use crate::merkle::{auth_path, hashes_view, merkle_node, MerkleProof, MerkleTree};
use crate::number_theory::lemma_two_power_order;
use crate::polynomial::{eval_seq, fp_seq, Polynomial};
use crate::trace::{rows_view, ExecutionTrace, TraceRow, NUM_COLUMNS};
use vstd::arithmetic::div_mod::*;
use vstd::arithmetic::mul::*;
use vstd::arithmetic::power::*;
use vstd::arithmetic::power2::*;
use vstd::prelude::*;

verus! {

broadcast use crate::field::group_fp;

/// Blowup factor of the LDE domain: it is this many times larger than the trace domain.
pub const BLOWUP_FACTOR: usize = 32;

/// The vanishing polynomial x^n - 1 of the trace domain of size n, at x.
pub open spec fn vanishing_at(x: int, n: nat) -> int {
    fmod(fpow(x, n) - 1)
}

/// The last point w^(n-1) of the trace domain of size n. No constraint binds
/// the step from the last row back to the first.
pub open spec fn last_trace_point(n: nat) -> int {
    fpow(root_of_unity_spec(n as int), (n - 1) as nat)
}

/// The vanishing polynomial of the constrained rows,
/// (x^n - 1) / (x - w^(n-1)), at x: zero at every trace point but the last.
pub open spec fn transition_vanishing_at(x: int, n: nat) -> int {
    fdiv(vanishing_at(x, n), fmod(x - last_trace_point(n)))
}

/// The LDE domain of a trace of n rows: the coset of size 32n.
pub open spec fn lde_point(n: nat, i: nat) -> int {
    domain_point(lde_offset_spec(32 * n as int), root_of_unity_spec(32 * n as int), i)
}

/// The vanishing polynomial of the trace domain has no zero on the LDE coset:
/// there x^n is an odd power of a primitive 64th root of unity.
pub proof fn lemma_vanishing_nonzero_on_lde(n: nat, i: nat)
    requires
        is_pow2(n as int),
        64 * n <= 0x1_0000_0000,
    ensures
        vanishing_at(lde_point(n, i), n) != 0,
{
    let p = modulus();
    let big = (P - 1) as int;
    is_pow2_equiv(n as int);
    let t = choose|t: nat| pow(2, t) == n as int;
    lemma_pow2(t);
    lemma_pow2_pos(t);
    lemma2_to64();
    lemma2_to64_rest();
    if t > 26 {
        lemma_pow2_strictly_increases(26, t);
        assert(false);
    }
    // 64n divides p - 1 = 2^32 * (2^32 - 1)
    let u = (26 - t) as nat;
    lemma_pow2_adds(u, t);
    let m0: int = 0xFFFF_FFFF;
    let c = m0 * pow2(u);
    assert(big == c * (64 * n)) by (nonlinear_arith)
        requires
            big == m0 * 0x1_0000_0000,
            0x1_0000_0000 == 64 * pow2(26),
            pow2(26) == pow2(u) * pow2(t),
            n == pow2(t),
            c == m0 * pow2(u),
    ;
    lemma_pow2_pos(u);
    assert(c > 0) by (nonlinear_arith)
        requires
            c == m0 * pow2(u),
            pow2(u) > 0,
            m0 > 0,
    ;
    lemma_div_by_multiple(c, 64 * n as int);
    assert(big / (2 * (32 * n as int)) == c);
    assert(big == (2 * c) * (32 * n)) by (nonlinear_arith)
        requires
            big == c * (64 * n),
    ;
    lemma_div_by_multiple(2 * c, 32 * n as int);
    assert(big / (32 * n as int) == 2 * c);
    let off = fpow(7, c as nat);
    let g = fpow(7, (2 * c) as nat);
    assert(lde_offset_spec(32 * n as int) == off);
    assert(root_of_unity_spec(32 * n as int) == g);
    // x = 7^(c (1 + 2i)) (mod p)
    let f = (1 + 2 * i) as nat;
    let x = lde_point(n, i);
    lemma_pow_mod_noop(pow(7, (2 * c) as nat), i, p);
    lemma_pow_multiplies(7, (2 * c) as nat, i);
    lemma_mul_mod_noop(pow(7, c as nat), pow(7, (2 * c * i) as nat), p);
    lemma_pow_adds(7, c as nat, (2 * c * i) as nat);
    assert(c + 2 * c * i == c * f) by (nonlinear_arith)
        requires
            f == 1 + 2 * i,
    ;
    assert(x == pow(7, (c * f) as nat) % p);
    // x^n = 7^(c f n) = (7^(64 c n / 64))^f = w^f with w = 7^((p-1)/64)
    lemma_pow_mod_noop(pow(7, (c * f) as nat), n, p);
    lemma_pow_multiplies(7, (c * f) as nat, n);
    assert(c * f * n == (c * n) * f) by (nonlinear_arith);
    let e64 = (c * n) as nat;
    assert(big == e64 * 64) by (nonlinear_arith)
        requires
            big == c * (64 * n),
            e64 == c * n,
    ;
    lemma_div_by_multiple(e64 as int, 64);
    lemma_pow_multiplies(7, e64, f);
    assert(fpow(x, n) == pow(pow(7, e64), f) % p);
    // w = root_of_unity_spec(64) has order exactly 64
    lemma_root_of_unity(6);
    assert(pow2(6) == 64) by {
        lemma2_to64();
    }
    assert(pow2(5) == 32) by {
        lemma2_to64();
    }
    let w = root_of_unity_spec(64);
    assert(w == pow(7, e64) % p);
    lemma_pow_mod_noop(pow(7, e64), f, p);
    assert(pow(w, f) % p == fpow(x, n));
    if vanishing_at(x, n) == 0 {
        let y = fpow(x, n);
        lemma_mod_bound(pow(pow(7, e64), f), p);
        if y != 1 {
            if y == 0 {
                lemma_mod_add_multiples_vanish(-1, p);
                lemma_small_mod((p - 1) as nat, p as nat);
            } else {
                lemma_small_mod((y - 1) as nat, p as nat);
            }
            assert(false);
        }
        lemma_two_power_order(w, p, 6, f);
        assert(false);
    }
}

/// The vanishing polynomial of the constrained rows has no zero on the LDE
/// coset, and neither has its denominator x - w^(n-1).
pub proof fn lemma_transition_vanishing_nonzero_on_lde(n: nat, i: nat)
    requires
        is_pow2(n as int),
        64 * n <= 0x1_0000_0000,
    ensures
        fmod(lde_point(n, i) - last_trace_point(n)) != 0,
        0 < transition_vanishing_at(lde_point(n, i), n) < modulus(),
{
    let p = modulus();
    let x = lde_point(n, i);
    let w = last_trace_point(n);
    reveal(is_pow2);
    lemma_vanishing_nonzero_on_lde(n, i);
    lemma_lde_disjoint_from_trace_domain(n, i, (n - 1) as nat);
    crate::field::lemma_fmod_range(lde_offset_spec(32 * n as int) * fpow(root_of_unity_spec(32 * n as int), i));
    crate::field::lemma_fmod_range(pow(root_of_unity_spec(n as int), (n - 1) as nat));
    let d = x - w;
    if fmod(d) == 0 {
        if d >= 0 {
            lemma_small_mod(d as nat, p as nat);
        } else {
            lemma_mod_add_multiples_vanish(d, p);
            lemma_small_mod((d + p) as nat, p as nat);
        }
        assert(false);
    }
    let v = vanishing_at(x, n);
    crate::field::lemma_fmod_range(fpow(x, n) - 1);
    lemma_small_mod(v as nat, p as nat);
    crate::field::lemma_fmod_range(d);
    lemma_small_mod(fmod(d) as nat, p as nat);
    lemma_finv(fmod(d));
    let fi = finv(fmod(d));
    if fmod(fi) == 0 {
        lemma_small_mod(fi as nat, p as nat);
        assert(fi == 0);
        assert(fmod(d) * fi == 0) by (nonlinear_arith)
            requires
                fi == 0,
        ;
        lemma_small_mod(0, p as nat);
        assert(false);
    }
    crate::field::lemma_fmul_nonzero(v, fi);
    crate::field::lemma_fmod_range(v * fi);
}

/// The vanishing polynomial is zero on the trace domain: every power of the
/// primitive root of unity of order n = 2^k is a root of x^n - 1.
pub proof fn lemma_vanishing_zero_on_trace_domain(k: nat, i: nat)
    requires
        k <= 32,
    ensures
        vanishing_at(fpow(root_of_unity_spec(pow2(k) as int), i), pow2(k)) == 0,
{
    let p = modulus();
    let n = pow2(k);
    let w = root_of_unity_spec(n as int);
    lemma_root_of_unity(k);
    lemma_pow_mod_noop(pow(w, i), n, p);
    lemma_pow_multiplies(w, i, n);
    lemma_pow_multiplies(w, n, i);
    lemma_mul_is_commutative(i as int, n as int);
    lemma_pow_mod_noop(pow(w, n), i, p);
    lemma1_pow(i);
    lemma_small_mod(1, p as nat);
    assert(fpow(fpow(w, i), n) == 1);
    lemma_small_mod(0, p as nat);
}

/// The LDE coset does not meet the trace domain: no LDE point is a power of
/// the trace domain's generator.
pub proof fn lemma_lde_disjoint_from_trace_domain(n: nat, i: nat, j: nat)
    requires
        is_pow2(n as int),
        64 * n <= 0x1_0000_0000,
    ensures
        lde_point(n, i) != fpow(root_of_unity_spec(n as int), j),
{
    is_pow2_equiv(n as int);
    let t = choose|t: nat| pow(2, t) == n as int;
    lemma_pow2(t);
    lemma2_to64();
    lemma2_to64_rest();
    if t > 32 {
        lemma_pow2_strictly_increases(32, t);
        assert(false);
    }
    lemma_vanishing_nonzero_on_lde(n, i);
    lemma_vanishing_zero_on_trace_domain(t, j);
}

// ---------------------------------------------------------------------------
// What a proof holds
// ---------------------------------------------------------------------------

/// The complete STARK proof.
#[derive(Debug, Clone)]
pub struct StarkProof {
    /// Merkle root committing to the trace evaluations on the LDE domain.
    pub trace_root: [u8; 32],
    /// Merkle root committing to the quotient evaluations on the LDE domain.
    pub quotient_root: [u8; 32],
    /// FRI proof that the quotient is low-degree.
    pub fri_proof: FriProof,
    /// Opened trace and quotient values at the queried positions.
    pub query_responses: Vec<QueryResponse>,
    /// The query positions (derived by Fiat-Shamir; the verifier derives its own).
    pub query_indices: Vec<usize>,
    /// The program (public).
    pub program: Vec<Instruction>,
    /// Claimed register values at the last real row.
    pub outputs: [Fp; 4],
    /// Trace length (padded, a power of two).
    pub trace_length: usize,
    /// Number of real (non-padding) rows.
    pub real_trace_length: usize,
}

/// The data opened at one query position.
#[derive(Debug, Clone)]
pub struct QueryResponse {
    /// Position in the LDE domain.
    pub index: usize,
    /// The trace columns at this LDE point.
    pub trace_values: [Fp; NUM_COLUMNS],
    /// The trace columns at the next point (index + blowup, cyclically).
    pub trace_next_values: [Fp; NUM_COLUMNS],
    /// Merkle proof for `trace_values`.
    pub trace_proof: MerkleProof,
    /// Merkle proof for `trace_next_values`.
    pub trace_next_proof: MerkleProof,
    /// The quotient at this LDE point.
    pub quotient_value: Fp,
    /// Merkle proof for `quotient_value`.
    pub quotient_proof: MerkleProof,
}

/// Column c of the trace rows.
pub open spec fn trace_column(rows: Seq<Seq<int>>, c: int) -> Seq<int> {
    Seq::new(rows.len(), |i: int| rows[i][c])
}

/// `p` interpolates `ys` on the powers of `omega`, trimmed, as
/// `Polynomial::interpolate_subgroup` returns it.
pub open spec fn is_interpolant(p: Seq<int>, omega: int, ys: Seq<int>) -> bool {
    &&& (ys.len() == 0 ==> p.len() == 0)
    &&& (ys.len() > 0 ==> 1 <= p.len() <= ys.len())
    &&& (p.len() > 1 ==> p[p.len() - 1] != 0)
    &&& forall|k: int| 0 <= k < ys.len() ==> #[trigger] eval_seq(p, fpow(omega, k as nat)) == ys[k]
}

/// The trace polynomials evaluated on the LDE domain of a trace of n rows:
/// lde_values(polys, n)[c][i] is column c at the i-th LDE point.
pub open spec fn lde_values(polys: Seq<Seq<int>>, n: nat) -> Seq<Seq<int>> {
    Seq::new(NUM_COLUMNS as nat, |c: int| Seq::new(32 * n, |i: int| eval_seq(polys[c], lde_point(n, i as nat))))
}

/// The columns at LDE position i.
pub open spec fn lde_row(lv: Seq<Seq<int>>, i: int) -> Seq<int> {
    Seq::new(NUM_COLUMNS as nat, |c: int| lv[c][i])
}

/// Values as consecutive eight-byte little-endian words.
pub open spec fn values_bytes(v: Seq<int>) -> Seq<u8>
    decreases v.len(),
{
    if v.len() == 0 {
        Seq::empty()
    } else {
        values_bytes(v.drop_last()) + le_bytes(v.last() as nat, 8)
    }
}

/// The Merkle leaf hashes of the trace commitment: one leaf per LDE point,
/// holding all columns there.
pub open spec fn trace_leaf_hashes(lv: Seq<Seq<int>>, size: int) -> Seq<Seq<u8>> {
    Seq::new(size as nat, |i: int| sha256_spec(values_bytes(lde_row(lv, i))))
}

/// The LDE position holding the next trace row.
pub open spec fn next_position(i: int, size: int) -> int {
    (i + BLOWUP_FACTOR) % size
}

/// The composition polynomial at each LDE point.
pub open spec fn composition_values(lv: Seq<Seq<int>>, size: int, alpha: int) -> Seq<int> {
    Seq::new(size as nat, |i: int| composition_spec(lde_row(lv, i), lde_row(lv, next_position(i, size)), alpha))
}

/// The quotient C(x) / Z(x) at each LDE point, Z the vanishing polynomial
/// of the constrained rows.
pub open spec fn quotient_values(cv: Seq<int>, n: nat) -> Seq<int> {
    Seq::new(cv.len(), |i: int| fdiv(cv[i], transition_vanishing_at(lde_point(n, i as nat), n)))
}

/// The bytes an instruction contributes to the transcript.
pub open spec fn instr_bytes(i: Instruction) -> Seq<u8> {
    seq![opcode_code(i.opcode), i.rd, i.rs1, i.rs2] + le_bytes(i.imm as nat, 8)
}

/// The bytes a program contributes to the transcript.
pub open spec fn program_bytes(p: Seq<Instruction>) -> Seq<u8>
    decreases p.len(),
{
    if p.len() == 0 {
        Seq::empty()
    } else {
        program_bytes(p.drop_last()) + instr_bytes(p.last())
    }
}

/// The number of queries for an LDE domain of the given size.
pub open spec fn num_queries(size: int) -> int {
    if size / 4 < 30 {
        size / 4
    } else {
        30
    }
}

/// The half-sizes of a sequence of layers.
pub open spec fn evals_halves(layers: Seq<Seq<int>>) -> Seq<int> {
    Seq::new(layers.len(), |k: int| (layers[k].len() / 2) as int)
}

/// `ql` opens layer `e` at position lo (and its partner lo + half).
pub open spec fn opens_layer(e: Seq<int>, lo: int, ql: FriQueryLayer) -> bool {
    let half = e.len() / 2;
    &&& ql.value@ == e[lo]
    &&& ql.sibling_value@ == e[lo + half]
    &&& hashes_view(ql.proof.siblings@) == auth_path(value_leaf_hashes(e), e.len() + lo)
    &&& hashes_view(ql.sibling_proof.siblings@) == auth_path(value_leaf_hashes(e), e.len() + lo + half)
}

/// `r` opens the trace and quotient at LDE position idx.
pub open spec fn opens_position(lv: Seq<Seq<int>>, qv: Seq<int>, size: int, idx: int, r: QueryResponse) -> bool {
    let next = next_position(idx, size);
    let tl = trace_leaf_hashes(lv, size);
    &&& r.index == idx
    &&& forall|c: int| 0 <= c < NUM_COLUMNS ==> (#[trigger] r.trace_values@[c])@ == lv[c][idx]
    &&& forall|c: int| 0 <= c < NUM_COLUMNS ==> (#[trigger] r.trace_next_values@[c])@ == lv[c][next]
    &&& hashes_view(r.trace_proof.siblings@) == auth_path(tl, size + idx)
    &&& hashes_view(r.trace_next_proof.siblings@) == auth_path(tl, size + next)
    &&& r.quotient_value@ == qv[idx]
    &&& hashes_view(r.quotient_proof.siblings@) == auth_path(value_leaf_hashes(qv), size + idx)
}

/// Each polynomial interpolates its trace column on the trace domain.
#[verifier::opaque]
pub open spec fn interpolates_columns(rows: Seq<Seq<int>>, polys: Seq<Seq<int>>) -> bool {
    &&& polys.len() == NUM_COLUMNS
    &&& forall|c: int| 0 <= c < NUM_COLUMNS ==> #[trigger] is_interpolant(polys[c], root_of_unity_spec(rows.len() as int), trace_column(rows, c))
}

/// The FRI proof of the commit phase `fri`, opened at `indices`.
#[verifier::opaque]
pub open spec fn fri_proof_of(fri: (Seq<Seq<int>>, Seq<int>, int, Seq<u8>), indices: Seq<usize>, fp: FriProof) -> bool {
    &&& fp.layer_roots.len() == fri.0.len()
    &&& forall|k: int| 0 <= k < fri.0.len() ==> #[trigger] fp.layer_roots@[k]@ == layer_root(fri.0[k])
    &&& fp.final_value@ == fri.2
    &&& fp.query_proofs.len() == indices.len()
    &&& forall|q: int| 0 <= q < indices.len() ==> (#[trigger] fp.query_proofs@[q]).layers.len() == fri.0.len()
    &&& forall|q: int, k: int| 0 <= q < indices.len() && 0 <= k < fri.0.len() ==> #[trigger] opens_layer(
        fri.0[k],
        query_pos(indices[q] as int, evals_halves(fri.0), k),
        fp.query_proofs@[q].layers@[k],
    )
}

/// The responses open the trace and quotient at `indices`.
#[verifier::opaque]
pub open spec fn responses_of(lv: Seq<Seq<int>>, qv: Seq<int>, size: int, indices: Seq<usize>, rs: Seq<QueryResponse>) -> bool {
    &&& rs.len() == indices.len()
    &&& forall|q: int| 0 <= q < indices.len() ==> #[trigger] opens_position(lv, qv, size, indices[q] as int, rs[q])
}

/// The outputs are the registers of the last real row.
pub open spec fn outputs_of(rows: Seq<Seq<int>>, real_len: int, outputs: [Fp; 4]) -> bool {
    forall|j: int| 0 <= j < 4 ==> (#[trigger] outputs@[j])@ == rows[real_len - 1][7 + j]
}

/// The query positions drawn after the commit phase `fri` on an LDE domain of the given size.
pub open spec fn query_indices_after(fri: (Seq<Seq<int>>, Seq<int>, int, Seq<u8>), size: int) -> Seq<usize> {
    collect_indices(fri.3, num_queries(size) as nat, (size / 2) as nat, MAX_SQUEEZES as nat, Seq::empty()).0
}

/// The proof that `prove` produces for trace rows `rows` (the first
/// `real_len` of them real) and `program`, given the interpolants `polys`
/// of the trace columns: the trace commitment, the challenge drawn from it,
/// the quotient commitment, the FRI proof of the quotient and the openings
/// at the query positions, all bound by the Fiat-Shamir transcript.
pub open spec fn honest_proof(rows: Seq<Seq<int>>, real_len: int, program: Seq<Instruction>, polys: Seq<Seq<int>>, proof: StarkProof) -> bool {
    let n = rows.len();
    let size = 32 * n as int;
    let lv = lde_values(polys, n);
    let s1 = program_bytes(program) + proof.trace_root@;
    let qv = quotient_values(composition_values(lv, size, squeeze_value(s1)), n);
    let fri = fri_commit_spec(qv, root_of_unity_spec(size), lde_offset_spec(size), sha256_spec(s1) + proof.quotient_root@);
    let indices = query_indices_after(fri, size);
    &&& interpolates_columns(rows, polys)
    &&& proof.trace_root@ == merkle_node(trace_leaf_hashes(lv, size), 1)
    &&& proof.quotient_root@ == layer_root(qv)
    &&& fri_proof_of(fri, indices, proof.fri_proof)
    &&& proof.query_indices@ == indices
    &&& responses_of(lv, qv, size, indices, proof.query_responses@)
    &&& proof.program@ == program
    &&& outputs_of(rows, real_len, proof.outputs)
    &&& proof.trace_length == n
    &&& proof.real_trace_length == real_len
}

// ---------------------------------------------------------------------------
// Steps of the prover
// ---------------------------------------------------------------------------

/// The residues of a table of field elements.
pub open spec fn table_view(t: Seq<Vec<Fp>>) -> Seq<Seq<int>> {
    t.map_values(|v: Vec<Fp>| fp_seq(v@))
}

/// Absorb the program into the transcript, instruction by instruction.
pub(crate) fn absorb_program(channel: &mut Channel, program: &[Instruction])
    ensures
        final(channel)@ == old(channel)@ + program_bytes(program@),
{
    let mut i: usize = 0;
    proof {
        assert(program@.subrange(0, 0) =~= Seq::<Instruction>::empty());
        assert(old(channel)@ + Seq::<u8>::empty() =~= old(channel)@);
    }
    while i < program.len()
        invariant
            i <= program.len(),
            channel@ == old(channel)@ + program_bytes(program@.subrange(0, i as int)),
        decreases program.len() - i,
    {
        let instr = program[i];
        let mut head: Vec<u8> = Vec::new();
        head.push(instr.opcode.code());
        head.push(instr.rd);
        head.push(instr.rs1);
        head.push(instr.rs2);
        let ghost c0 = channel@;
        channel.absorb(head.as_slice());
        let imm = u64_le_bytes(instr.imm);
        channel.absorb(imm.as_slice());
        proof {
            let sub = program@.subrange(0, i + 1);
            assert(sub.drop_last() =~= program@.subrange(0, i as int));
            assert(sub.last() == instr);
            assert(head@ =~= seq![opcode_code(instr.opcode), instr.rd, instr.rs1, instr.rs2]);
            assert(channel@ =~= c0 + instr_bytes(instr));
            assert(program_bytes(sub) == program_bytes(sub.drop_last()) + instr_bytes(instr));
            assert(old(channel)@ + program_bytes(sub) =~= (old(channel)@ + program_bytes(program@.subrange(0, i as int))) + instr_bytes(instr));
        }
        i += 1;
    }
    proof {
        assert(program@.subrange(0, program.len() as int) =~= program@);
    }
}

/// Interpolate each trace column on the subgroup generated by omega.
fn interpolate_columns(trace: &ExecutionTrace, omega: Fp) -> (polys: Vec<Polynomial>)
    requires
        forall|i: nat, j: nat| i < j < trace.rows.len() ==> fpow(omega@, i) != fpow(omega@, j),
    ensures
        polys.len() == NUM_COLUMNS,
        forall|c: int| 0 <= c < NUM_COLUMNS ==> #[trigger] is_interpolant(polys[c]@, omega@, trace_column(rows_view(trace.rows@), c)),
{
    let mut polys: Vec<Polynomial> = Vec::new();
    let mut col: usize = 0;
    while col < NUM_COLUMNS
        invariant
            forall|i: nat, j: nat| i < j < trace.rows.len() ==> fpow(omega@, i) != fpow(omega@, j),
            col <= NUM_COLUMNS,
            polys.len() == col,
            forall|c: int| 0 <= c < col ==> #[trigger] is_interpolant(polys[c]@, omega@, trace_column(rows_view(trace.rows@), c)),
        decreases NUM_COLUMNS - col,
    {
        let values = trace.get_column(col);
        let poly = Polynomial::interpolate_subgroup(omega, values.as_slice());
        proof {
            let ys = trace_column(rows_view(trace.rows@), col as int);
            assert forall|k: int| 0 <= k < ys.len() implies #[trigger] eval_seq(poly@, fpow(omega@, k as nat)) == ys[k] by {
                assert(values@[k]@ == ys[k]);
            }
        }
        polys.push(poly);
        col += 1;
    }
    polys
}

/// Evaluate each polynomial at every point of `points`.
fn extend_columns(polys: &Vec<Polynomial>, points: &Vec<Fp>) -> (lv: Vec<Vec<Fp>>)
    requires
        polys.len() == NUM_COLUMNS,
    ensures
        lv.len() == NUM_COLUMNS,
        forall|c: int| 0 <= c < NUM_COLUMNS ==> (#[trigger] lv@[c]).len() == points.len(),
        forall|c: int, i: int| 0 <= c < NUM_COLUMNS && 0 <= i < points.len() ==> (#[trigger] lv@[c]@[i])@ == eval_seq(polys@[c]@, points@[i]@),
{
    let mut lv: Vec<Vec<Fp>> = Vec::new();
    let mut col: usize = 0;
    while col < NUM_COLUMNS
        invariant
            polys.len() == NUM_COLUMNS,
            col <= NUM_COLUMNS,
            lv.len() == col,
            forall|c: int| 0 <= c < col ==> (#[trigger] lv@[c]).len() == points.len(),
            forall|c: int, i: int| 0 <= c < col && 0 <= i < points.len() ==> (#[trigger] lv@[c]@[i])@ == eval_seq(polys@[c]@, points@[i]@),
        decreases NUM_COLUMNS - col,
    {
        let evals = polys[col].evaluate_domain(points.as_slice());
        lv.push(evals);
        col += 1;
    }
    lv
}

/// The columns at position i, as an array.
fn row_array(lv: &Vec<Vec<Fp>>, i: usize) -> (a: [Fp; NUM_COLUMNS])
    requires
        lv.len() == NUM_COLUMNS,
        forall|c: int| 0 <= c < NUM_COLUMNS ==> i < (#[trigger] lv@[c]).len(),
    ensures
        cols(a) == lde_row(table_view(lv@), i as int),
{
    let a = [
        lv[0][i],
        lv[1][i],
        lv[2][i],
        lv[3][i],
        lv[4][i],
        lv[5][i],
        lv[6][i],
        lv[7][i],
        lv[8][i],
        lv[9][i],
        lv[10][i],
        lv[11][i],
        lv[12][i],
    ];
    proof {
        assert(cols(a) =~= lde_row(table_view(lv@), i as int));
    }
    a
}

/// The columns at position i as consecutive eight-byte words.
fn row_bytes(lv: &Vec<Vec<Fp>>, i: usize) -> (r: Vec<u8>)
    requires
        lv.len() == NUM_COLUMNS,
        forall|c: int| 0 <= c < NUM_COLUMNS ==> i < (#[trigger] lv@[c]).len(),
    ensures
        r@ == values_bytes(lde_row(table_view(lv@), i as int)),
{
    let ghost row = lde_row(table_view(lv@), i as int);
    let mut data: Vec<u8> = Vec::new();
    let mut col: usize = 0;
    proof {
        assert(row.subrange(0, 0) =~= Seq::<int>::empty());
    }
    while col < NUM_COLUMNS
        invariant
            lv.len() == NUM_COLUMNS,
            forall|c: int| 0 <= c < NUM_COLUMNS ==> i < (#[trigger] lv@[c]).len(),
            row == lde_row(table_view(lv@), i as int),
            col <= NUM_COLUMNS,
            data@ == values_bytes(row.subrange(0, col as int)),
        decreases NUM_COLUMNS - col,
    {
        let bytes = u64_le_bytes(lv[col][i].value());
        let mut k: usize = 0;
        let ghost d0 = data@;
        proof {
            lemma_le_bytes_len(lv@[col as int]@[i as int]@ as nat, 8);
        }
        while k < 8
            invariant
                k <= 8,
                bytes@.len() == 8,
                data@ == d0 + bytes@.subrange(0, k as int),
            decreases 8 - k,
        {
            data.push(bytes[k]);
            proof {
                assert(d0 + bytes@.subrange(0, k + 1) =~= (d0 + bytes@.subrange(0, k as int)).push(bytes@[k as int]));
            }
            k += 1;
        }
        proof {
            let sub = row.subrange(0, col + 1);
            assert(sub.drop_last() =~= row.subrange(0, col as int));
            assert(sub.last() == lv@[col as int]@[i as int]@);
            assert(bytes@.subrange(0, 8) =~= bytes@);
        }
        col += 1;
    }
    proof {
        assert(row.subrange(0, NUM_COLUMNS as int) =~= row);
    }
    data
}

/// The trace leaves: for each LDE position, all columns there.
fn trace_leaves(lv: &Vec<Vec<Fp>>, size: usize) -> (r: Vec<Vec<u8>>)
    requires
        lv.len() == NUM_COLUMNS,
        forall|c: int| 0 <= c < NUM_COLUMNS ==> (#[trigger] lv@[c]).len() == size,
    ensures
        r.len() == size,
        forall|i: int| 0 <= i < size ==> (#[trigger] r@[i])@ == values_bytes(lde_row(table_view(lv@), i)),
{
    let mut r: Vec<Vec<u8>> = Vec::new();
    let mut i: usize = 0;
    while i < size
        invariant
            lv.len() == NUM_COLUMNS,
            forall|c: int| 0 <= c < NUM_COLUMNS ==> (#[trigger] lv@[c]).len() == size,
            i <= size,
            r.len() == i,
            forall|k: int| 0 <= k < i ==> (#[trigger] r@[k])@ == values_bytes(lde_row(table_view(lv@), k)),
        decreases size - i,
    {
        r.push(row_bytes(lv, i));
        i += 1;
    }
    r
}

/// The composition polynomial at every LDE position.
fn composition_at_points(lv: &Vec<Vec<Fp>>, size: usize, alpha: Fp) -> (r: Vec<Fp>)
    requires
        size >= 1,
        size + BLOWUP_FACTOR <= usize::MAX,
        lv.len() == NUM_COLUMNS,
        forall|c: int| 0 <= c < NUM_COLUMNS ==> (#[trigger] lv@[c]).len() == size,
    ensures
        r.len() == size,
        fp_seq(r@) == composition_values(table_view(lv@), size as int, alpha@),
{
    let mut r: Vec<Fp> = Vec::new();
    let mut i: usize = 0;
    while i < size
        invariant
            size >= 1,
            size + BLOWUP_FACTOR <= usize::MAX,
            lv.len() == NUM_COLUMNS,
            forall|c: int| 0 <= c < NUM_COLUMNS ==> (#[trigger] lv@[c]).len() == size,
            i <= size,
            r.len() == i,
            forall|k: int| 0 <= k < i ==> (#[trigger] r@[k])@ == composition_values(table_view(lv@), size as int, alpha@)[k],
        decreases size - i,
    {
        let next_i = (i + BLOWUP_FACTOR) % size;
        let current = row_array(lv, i);
        let next = row_array(lv, next_i);
        r.push(evaluate_composition(&current, &next, alpha));
        i += 1;
    }
    proof {
        assert(fp_seq(r@) =~= composition_values(table_view(lv@), size as int, alpha@));
    }
    r
}

/// The quotient C(x) / Z(x) at every LDE point of a trace of n rows, with
/// Z(x) = (x^n - 1) / (x - w_last) and w_last the last trace point.
fn quotient_at_points(cv: &Vec<Fp>, points: &Vec<Fp>, n: usize, w_last: Fp) -> (r: Vec<Fp>)
    requires
        is_pow2(n as int),
        64 * n <= 0x1_0000_0000,
        cv.len() == points.len(),
        forall|i: int| 0 <= i < points.len() ==> (#[trigger] points@[i])@ == lde_point(n as nat, i as nat),
        w_last@ == last_trace_point(n as nat),
    ensures
        r.len() == points.len(),
        fp_seq(r@) == quotient_values(fp_seq(cv@), n as nat),
{
    let mut r: Vec<Fp> = Vec::new();
    let mut i: usize = 0;
    while i < points.len()
        invariant
            is_pow2(n as int),
            64 * n <= 0x1_0000_0000,
            cv.len() == points.len(),
            forall|i: int| 0 <= i < points.len() ==> (#[trigger] points@[i])@ == lde_point(n as nat, i as nat),
            w_last@ == last_trace_point(n as nat),
            i <= points.len(),
            r.len() == i,
            forall|k: int| 0 <= k < i ==> (#[trigger] r@[k])@ == quotient_values(fp_seq(cv@), n as nat)[k],
        decreases points.len() - i,
    {
        let x = points[i];
        let z_h = x.pow(n as u64) - Fp::one();
        let den = x - w_last;
        proof {
            lemma_transition_vanishing_nonzero_on_lde(n as nat, i as nat);
            assert(z_h@ == vanishing_at(lde_point(n as nat, i as nat), n as nat));
        }
        let z = z_h * den.inv();
        proof {
            assert(z@ == transition_vanishing_at(lde_point(n as nat, i as nat), n as nat));
        }
        let q = cv[i] * z.inv();
        r.push(q);
        i += 1;
    }
    proof {
        assert(fp_seq(r@) =~= quotient_values(fp_seq(cv@), n as nat));
    }
    r
}

/// Open the trace and the quotient at each query position.
fn build_responses(
    query_indices: &Vec<usize>,
    lv: &Vec<Vec<Fp>>,
    size: usize,
    trace_tree: &MerkleTree,
    quotient: &Vec<Fp>,
    quotient_tree: &MerkleTree,
) -> (r: Vec<QueryResponse>)
    requires
        size >= 1,
        size + BLOWUP_FACTOR <= usize::MAX,
        lv.len() == NUM_COLUMNS,
        forall|c: int| 0 <= c < NUM_COLUMNS ==> (#[trigger] lv@[c]).len() == size,
        forall|q: int| 0 <= q < query_indices.len() ==> (#[trigger] query_indices@[q]) < size,
        trace_tree@ == trace_leaf_hashes(table_view(lv@), size as int),
        quotient.len() == size,
        quotient_tree@ == value_leaf_hashes(fp_seq(quotient@)),
    ensures
        r.len() == query_indices.len(),
        forall|q: int| 0 <= q < query_indices.len() ==> #[trigger] opens_position(
            table_view(lv@),
            fp_seq(quotient@),
            size as int,
            query_indices@[q] as int,
            r@[q],
        ),
        responses_of(table_view(lv@), fp_seq(quotient@), size as int, query_indices@, r@),
        forall|q: int| 0 <= q < r.len() ==> (#[trigger] r@[q]).index == query_indices@[q],
{
    let mut r: Vec<QueryResponse> = Vec::new();
    let mut q: usize = 0;
    while q < query_indices.len()
        invariant
            size >= 1,
            size + BLOWUP_FACTOR <= usize::MAX,
            lv.len() == NUM_COLUMNS,
            forall|c: int| 0 <= c < NUM_COLUMNS ==> (#[trigger] lv@[c]).len() == size,
            forall|q: int| 0 <= q < query_indices.len() ==> (#[trigger] query_indices@[q]) < size,
            trace_tree@ == trace_leaf_hashes(table_view(lv@), size as int),
            quotient.len() == size,
            quotient_tree@ == value_leaf_hashes(fp_seq(quotient@)),
            q <= query_indices.len(),
            r.len() == q,
            forall|j: int| 0 <= j < q ==> (#[trigger] r@[j]).index == query_indices@[j],
            forall|j: int| 0 <= j < q ==> #[trigger] opens_position(
                table_view(lv@),
                fp_seq(quotient@),
                size as int,
                query_indices@[j] as int,
                r@[j],
            ),
        decreases query_indices.len() - q,
    {
        let idx = query_indices[q];
        let next_idx = (idx + BLOWUP_FACTOR) % size;
        let trace_values = row_array(lv, idx);
        let trace_next_values = row_array(lv, next_idx);
        let resp = QueryResponse {
            index: idx,
            trace_values,
            trace_next_values,
            trace_proof: trace_tree.prove(idx),
            trace_next_proof: trace_tree.prove(next_idx),
            quotient_value: quotient[idx],
            quotient_proof: quotient_tree.prove(idx),
        };
        proof {
            let lvv = table_view(lv@);
            assert forall|c: int| 0 <= c < NUM_COLUMNS implies (#[trigger] resp.trace_values@[c])@ == lvv[c][idx as int] by {
                assert(cols(trace_values)[c] == resp.trace_values@[c]@);
            }
            assert forall|c: int| 0 <= c < NUM_COLUMNS implies (#[trigger] resp.trace_next_values@[c])@ == lvv[c][next_idx as int] by {
                assert(cols(trace_next_values)[c] == resp.trace_next_values@[c]@);
            }
            assert(opens_position(lvv, fp_seq(quotient@), size as int, idx as int, resp));
        }
        r.push(resp);
        q += 1;
    }
    proof {
        reveal(responses_of);
    }
    r
}

/// A copy of the program.
fn copy_program(program: &[Instruction]) -> (r: Vec<Instruction>)
    ensures
        r@ == program@,
{
    let mut r: Vec<Instruction> = Vec::new();
    let mut i: usize = 0;
    while i < program.len()
        invariant
            i <= program.len(),
            r@ == program@.subrange(0, i as int),
        decreases program.len() - i,
    {
        r.push(program[i]);
        i += 1;
    }
    proof {
        assert(program@.subrange(0, program.len() as int) =~= program@);
    }
    r
}

/// The Merkle roots of the FRI layers.
fn layer_roots_of(layers: &Vec<FriLayer>) -> (r: Vec<[u8; 32]>)
    ensures
        r.len() == layers.len(),
        forall|k: int| 0 <= k < layers.len() ==> (#[trigger] r@[k]) == layers@[k].root,
{
    let mut r: Vec<[u8; 32]> = Vec::new();
    let mut k: usize = 0;
    while k < layers.len()
        invariant
            k <= layers.len(),
            r.len() == k,
            forall|j: int| 0 <= j < k ==> (#[trigger] r@[j]) == layers@[j].root,
        decreases layers.len() - k,
    {
        r.push(layers[k].root);
        k += 1;
    }
    r
}

/// A power of two doubled is a power of two.
pub(crate) proof fn lemma_pow2_double(x: int)
    requires
        is_pow2(x),
    ensures
        is_pow2(2 * x),
{
    reveal(is_pow2);
    assert((2 * x) / 2 == x);
}

/// The views of a vector of polynomials.
pub open spec fn polys_view(polys: Seq<Polynomial>) -> Seq<Seq<int>> {
    polys.map_values(|p: Polynomial| p@)
}

/// Commit to the trace: interpolate its columns on the trace domain,
/// evaluate them on the LDE domain, and build the Merkle tree whose leaf i
/// holds every column at the i-th LDE point. Returns the interpolants, the
/// LDE table, the tree, the LDE domain and its points.
fn commit_trace(trace: &ExecutionTrace) -> (r: (Vec<Polynomial>, Vec<Vec<Fp>>, MerkleTree, Domain, Vec<Fp>))
    requires
        is_pow2(trace.rows.len() as int),
        64 * trace.rows.len() <= 0x1_0000_0000,
        64 * trace.rows.len() <= usize::MAX,
    ensures
        ({
            let n = trace.rows.len();
            let size = 32 * n;
            &&& interpolates_columns(rows_view(trace.rows@), polys_view(r.0@))
            &&& table_view(r.1@) == lde_values(polys_view(r.0@), n as nat)
            &&& r.1.len() == NUM_COLUMNS
            &&& forall|c: int| 0 <= c < NUM_COLUMNS ==> (#[trigger] r.1@[c]).len() == size
            &&& r.2@ == trace_leaf_hashes(table_view(r.1@), size as int)
            &&& r.3.size == size
            &&& r.3.generator@ == root_of_unity_spec(size as int)
            &&& r.3.offset@ == lde_offset_spec(size as int)
            &&& r.4.len() == size
            &&& forall|i: int| 0 <= i < size ==> (#[trigger] r.4@[i])@ == lde_point(n as nat, i as nat)
            &&& is_pow2(size as int)
        }),
{
    let n = trace.len();
    proof {
        lemma_pow2_double(n as int);
        lemma_pow2_double(2 * n as int);
        lemma_pow2_double(4 * n as int);
        lemma_pow2_double(8 * n as int);
        lemma_pow2_double(16 * n as int);
    }
    let trace_domain = Domain::trace_domain(n);
    let lde_domain = Domain::lde_domain(n, BLOWUP_FACTOR);
    let lde_size = lde_domain.size;
    let lde_elements = lde_domain.elements();
    let trace_polys = interpolate_columns(trace, trace_domain.generator);
    let trace_lde = extend_columns(&trace_polys, &lde_elements);
    let ghost pv = polys_view(trace_polys@);
    let ghost lvv = table_view(trace_lde@);
    proof {
        assert forall|i: int| 0 <= i < lde_size implies (#[trigger] lde_elements@[i])@ == lde_point(n as nat, i as nat) by {}
        assert forall|c: int| 0 <= c < NUM_COLUMNS implies #[trigger] lvv[c] == lde_values(pv, n as nat)[c] by {
            assert(lvv[c] =~= lde_values(pv, n as nat)[c]);
        }
        assert(lvv =~= lde_values(pv, n as nat));
        reveal(interpolates_columns);
        assert forall|c: int| 0 <= c < NUM_COLUMNS implies #[trigger] is_interpolant(pv[c], root_of_unity_spec(n as int), trace_column(rows_view(trace.rows@), c)) by {
            assert(is_interpolant(trace_polys@[c]@, trace_domain.generator@, trace_column(rows_view(trace.rows@), c)));
        }
    }
    let leaves = trace_leaves(&trace_lde, lde_size);
    let trace_tree = MerkleTree::new(leaves.as_slice());
    proof {
        assert(trace_tree@ =~= trace_leaf_hashes(lvv, lde_size as int));
    }
    (trace_polys, trace_lde, trace_tree, lde_domain, lde_elements)
}

/// Prove the quotient low-degree: run the FRI commit phase on it, draw the
/// query positions, and open the FRI layers there.
fn prove_low_degree(quotient: &Vec<Fp>, lde: &Domain, channel: &mut Channel) -> (r: (FriProof, Vec<usize>))
    requires
        is_pow2(quotient.len() as int),
        quotient.len() == lde.size,
        quotient.len() >= 8,
        2 * quotient.len() <= usize::MAX,
        lde.generator@ != 0,
        lde.offset@ != 0,
    ensures
        ({
            let fri = fri_commit_spec(fp_seq(quotient@), lde.generator@, lde.offset@, old(channel)@);
            let indices = query_indices_after(fri, lde.size as int);
            &&& r.1@ == indices
            &&& fri_proof_of(fri, indices, r.0)
            &&& forall|q: int| 0 <= q < indices.len() ==> (#[trigger] indices[q]) < lde.size / 2
        }),
        r.1@.len() == num_queries(lde.size as int),
        distinct_below(r.1@, (lde.size / 2) as nat),
        r.0.query_proofs.len() == r.1@.len(),
{
    let ghost qv = fp_seq(quotient@);
    let ghost s0 = channel@;
    let lde_size = lde.size;
    proof {
        lemma_fri_commit_shape(qv, lde.generator@, lde.offset@, s0);
    }
    let (fri_layers, fri_final_value) = fri_commit(quotient.as_slice(), lde.generator, lde.offset, channel);
    let ghost fri = fri_commit_spec(qv, lde.generator@, lde.offset@, s0);
    let max_queries = if lde_size / 4 < NUM_FRI_QUERIES {
        lde_size / 4
    } else {
        NUM_FRI_QUERIES
    };
    let query_indices = channel.squeeze_indices(max_queries, lde_size / 2);
    proof {
        lemma_collect_indices(fri.3, max_queries as nat, (lde_size / 2) as nat, MAX_SQUEEZES as nat, Seq::empty());
        assert forall|k: int| 0 <= k < fri_layers.len() implies {
            &&& (#[trigger] fri_layers@[k]).evaluations.len() >= 2
            &&& 2 * (fri_layers@[k].evaluations.len() / 2) <= fri_layers@[k].tree@.len()
        } by {
            assert(layers_evals(fri_layers@)[k] == fp_seq(fri_layers@[k].evaluations@));
            assert(fri.0[k].len() >= 2);
            assert(crate::fri::layer_committed(fri_layers@[k]));
            assert(value_leaf_hashes(fp_seq(fri_layers@[k].evaluations@)).len() == fri_layers@[k].evaluations.len());
        }
    }
    let fri_query_proofs = fri_query(fri_layers.as_slice(), query_indices.as_slice());
    let layer_roots = layer_roots_of(&fri_layers);
    let fri_proof = FriProof { layer_roots, final_value: fri_final_value, query_proofs: fri_query_proofs };
    proof {
        let indices = query_indices@;
        assert(fri_layers.len() == fri.0.len());
        assert forall|k: int| 0 <= k < fri.0.len() implies #[trigger] fri_layers@[k].evaluations.len() == fri.0[k].len() by {
            assert(layers_evals(fri_layers@)[k] == fp_seq(fri_layers@[k].evaluations@));
        }
        assert(layer_halves(fri_layers@) =~= evals_halves(fri.0));
        reveal(fri_proof_of);
        assert forall|k: int| 0 <= k < fri.0.len() implies #[trigger] fri_proof.layer_roots@[k]@ == layer_root(fri.0[k]) by {
            assert(layers_evals(fri_layers@)[k] == fp_seq(fri_layers@[k].evaluations@));
            assert(crate::fri::layer_committed(fri_layers@[k]));
        }
        assert forall|q: int, k: int| 0 <= q < indices.len() && 0 <= k < fri.0.len() implies #[trigger] opens_layer(
            fri.0[k],
            query_pos(indices[q] as int, evals_halves(fri.0), k),
            fri_proof.query_proofs@[q].layers@[k],
        ) by {
            assert(layers_evals(fri_layers@)[k] == fp_seq(fri_layers@[k].evaluations@));
            assert(crate::fri::layer_committed(fri_layers@[k]));
            let lo = query_pos(indices[q] as int, layer_halves(fri_layers@), k);
            assert(crate::fri::opening_of(fri_layers@[k], lo, fri_proof.query_proofs@[q].layers@[k]));
        }
        assert(fri_proof_of(fri, indices, fri_proof));
    }
    (fri_proof, query_indices)
}

/// Generate a STARK proof for an execution trace of the program: commit to
/// the trace on the LDE domain, draw the composition challenge, commit to
/// the constraint quotient C(x) / Z(x) there (Z vanishing on every trace
/// point but the last), prove it low-degree with FRI, and open the
/// commitments at the Fiat-Shamir query positions.
#[verifier::spinoff_prover]
#[verifier::rlimit(30)]
pub fn prove(trace: &ExecutionTrace, program: &[Instruction]) -> (proof: StarkProof)
    requires
        is_pow2(trace.rows.len() as int),
        64 * trace.rows.len() <= 0x1_0000_0000,
        64 * trace.rows.len() <= usize::MAX,
        1 <= trace.real_len <= trace.rows.len(),
    ensures
        exists|polys: Seq<Seq<int>>| honest_proof(rows_view(trace.rows@), trace.real_len as int, program@, polys, proof),
        proof.query_indices.len() == num_queries(32 * trace.rows.len()),
        distinct_below(proof.query_indices@, (16 * trace.rows.len()) as nat),
        proof.query_responses.len() == proof.query_indices.len(),
        proof.fri_proof.query_proofs.len() == proof.query_indices.len(),
        forall|k: int| 0 <= k < proof.query_responses.len() ==> (#[trigger] proof.query_responses@[k]).index == proof.query_indices@[k],
{
    let n = trace.len();
    let (trace_polys, trace_lde, trace_tree, lde_domain, lde_elements) = commit_trace(trace);
    let lde_size = lde_domain.size;
    let trace_root = trace_tree.root();
    let mut channel = Channel::new();
    absorb_program(&mut channel, program);
    channel.absorb(&trace_root);
    let ghost s1 = channel@;
    let alpha = channel.squeeze_field();
    let composition = composition_at_points(&trace_lde, lde_size, alpha);
    let w_last = Fp::root_of_unity(n as u64).pow((n - 1) as u64);
    let quotient = quotient_at_points(&composition, &lde_elements, n, w_last);
    let quotient_layer = commit_layer(&quotient);
    let quotient_root = quotient_layer.root;
    channel.absorb(&quotient_root);
    proof {
        lemma_small_mod(7, P as nat);
        lemma_fpow_nonzero(7, ((P - 1) as int / (2 * lde_size as int)) as nat);
        lemma_fpow_nonzero(7, ((P - 1) as int / (lde_size as int)) as nat);
    }
    let (fri_proof, query_indices) = prove_low_degree(&quotient, &lde_domain, &mut channel);
    let query_responses = build_responses(&query_indices, &trace_lde, lde_size, &trace_tree, &quotient, &quotient_layer.tree);
    let last_real = trace.rows[trace.real_len - 1];
    let outputs = [last_real.r0, last_real.r1, last_real.r2, last_real.r3];
    let proof = StarkProof {
        trace_root,
        quotient_root,
        fri_proof,
        query_responses,
        query_indices,
        program: copy_program(program),
        outputs,
        trace_length: n,
        real_trace_length: trace.real_len,
    };
    proof {
        let rows = rows_view(trace.rows@);
        let pv = polys_view(trace_polys@);
        assert(honest_proof(rows, trace.real_len as int, program@, pv, proof)) by {
            assert(Seq::<u8>::empty() + program_bytes(program@) =~= program_bytes(program@));
            assert(s1 == program_bytes(program@) + proof.trace_root@);
            assert(outputs_of(rows, trace.real_len as int, proof.outputs));
        }
    }
    proof
}

} // verus!
