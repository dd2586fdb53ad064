//! What the VM, the AIR, the composition, the STARK verifier and the FRI
//! verifier mean, stated in terms of their inputs: the arithmetic each
//! instruction performs, what a zero constraint forces, the composition as
//! an explicit sum, and what acceptance guarantees about the opened values.
use crate::air::{composition_spec, constraint_values, is_write_spec, op_sel, reg_sel, write_val_spec, cols};
use crate::air_laws::{lemma_op_selectors, lemma_read, lemma_reg_selectors};
use crate::field::{fmod, fpow, lemma_fmod_small, modulus};
use crate::instruction::Instruction;
use crate::vm::{expected_row, halt_index, lemma_halt_index, operands_ok, program_runs, regs_before};
use crate::channel::le_bytes;
use crate::field::root_of_unity_spec;
use crate::domain::domain_point;
use crate::fri::{fdiv, fold_pair, fri_accepts, fri_layer_ok, layer_size, layer_square, verifier_pos, FriProof};
use crate::hash::sha256_spec;
use crate::merkle::{hashes_view, merkle_fold};
use crate::prover::{lde_point, values_bytes, StarkProof};
use crate::stark_verifier::{response_ok, verifier_alpha, verifier_indices, verify_accepts};
use vstd::arithmetic::div_mod::*;
use vstd::prelude::*;

verus! {

/// Two residues that are congruent modulo p are equal.
proof fn lemma_residues_equal(x: int, y: int)
    requires
        0 <= x < modulus(),
        0 <= y < modulus(),
        fmod(x - y) == 0,
    ensures
        x == y,
{
    let p = modulus();
    if x > y {
        lemma_small_mod((x - y) as nat, p as nat);
    } else if x < y {
        lemma_mod_add_multiples_vanish(x - y, p);
        lemma_small_mod((x - y + p) as nat, p as nat);
    }
}

/// One step of the VM, as its trace records it: the row before instruction
/// k (not yet the HALT) reads the registers its source operands name, and
/// the next row holds the registers after the instruction: IMM writes the
/// immediate, ADD, MUL and SUB write the sum, product and difference of the
/// two source registers modulo p, into the destination register only; NOP
/// changes nothing.
pub proof fn lemma_vm_step(program: Seq<Instruction>, k: nat)
    requires
        program_runs(program),
        k < halt_index(program, 0),
    ensures
        ({
            let inst = program[k as int];
            let cur = expected_row(program, k);
            let next = expected_row(program, k + 1);
            let a = cur[7 + inst.rs1];
            let b = cur[7 + inst.rs2];
            &&& cur[11] == a
            &&& cur[12] == b
            &&& forall|i: int| 0 <= i < 4 ==> #[trigger] next[7 + i] == (if i != inst.rd as int || inst.opcode is Nop {
                cur[7 + i]
            } else if inst.opcode is Imm {
                fmod(inst.imm as int)
            } else if inst.opcode is Add {
                fmod(a + b)
            } else if inst.opcode is Mul {
                fmod(a * b)
            } else {
                fmod(a - b)
            })
        }),
{
    lemma_halt_index(program, 0);
    let inst = program[k as int];
    assert(operands_ok(inst));
    assert(!(inst.opcode is Halt));
    let regs = regs_before(program, k);
    assert(regs_before(program, k + 1) == crate::vm::step_regs(regs, inst));
    crate::vm::lemma_regs_range(program, k);
}

/// A MUL step multiplies: after mul(rd, rs1, rs2) the destination register
/// holds the product of the two source registers modulo p.
pub proof fn lemma_vm_mul_step(program: Seq<Instruction>, k: nat)
    requires
        program_runs(program),
        k < halt_index(program, 0),
        program[k as int].opcode is Mul,
    ensures
        expected_row(program, k + 1)[7 + program[k as int].rd] == fmod(
            expected_row(program, k)[7 + program[k as int].rs1] * expected_row(program, k)[7 + program[k as int].rs2],
        ),
{
    lemma_vm_step(program, k);
    lemma_halt_index(program, 0);
    assert(operands_ok(program[k as int]));
    let rd = program[k as int].rd as int;
    assert(expected_row(program, k + 1)[7 + rd] == expected_row(program, k + 1)[7 + rd]);
}

/// The value a valid writing row stores, from its selectors: the immediate
/// for IMM (1), the sum, product or difference of the two read values for
/// ADD (2), MUL (3), SUB (4).
proof fn lemma_write_value(cur: Seq<int>)
    requires
        cur.len() == 13,
        1 <= cur[2] <= 4,
        0 <= cur[6] < modulus(),
    ensures
        write_val_spec(cur) == (if cur[2] == 1 {
            cur[6]
        } else if cur[2] == 2 {
            fmod(cur[11] + cur[12])
        } else if cur[2] == 3 {
            fmod(cur[11] * cur[12])
        } else {
            fmod(cur[11] - cur[12])
        }),
{
    let op = cur[2];
    let a = cur[11];
    let b = cur[12];
    lemma_op_selectors(op);
    let s1 = op_sel(op, 1);
    let s2 = op_sel(op, 2);
    let s3 = op_sel(op, 3);
    let s4 = op_sel(op, 4);
    let sum = s1 * cur[6] + s2 * (a + b) + s3 * (a * b) + s4 * (a - b);
    assert(write_val_spec(cur) == fmod(sum));
    if op == 1 {
        assert(sum == cur[6]) by (nonlinear_arith)
            requires
                s1 == 1, s2 == 0, s3 == 0, s4 == 0,
                sum == s1 * cur[6] + s2 * (a + b) + s3 * (a * b) + s4 * (a - b),
        ;
        lemma_fmod_small(cur[6]);
    } else if op == 2 {
        assert(sum == a + b) by (nonlinear_arith)
            requires
                s1 == 0, s2 == 1, s3 == 0, s4 == 0,
                sum == s1 * cur[6] + s2 * (a + b) + s3 * (a * b) + s4 * (a - b),
        ;
    } else if op == 3 {
        assert(sum == a * b) by (nonlinear_arith)
            requires
                s1 == 0, s2 == 0, s3 == 1, s4 == 0,
                sum == s1 * cur[6] + s2 * (a + b) + s3 * (a * b) + s4 * (a - b),
        ;
    } else {
        assert(sum == a - b) by (nonlinear_arith)
            requires
                s1 == 0, s2 == 0, s3 == 0, s4 == 1,
                sum == s1 * cur[6] + s2 * (a + b) + s3 * (a * b) + s4 * (a - b),
        ;
    }
}

/// Soundness of the AIR for one transition: when all eight constraints
/// between two rows of residues are zero (and the opcode and register
/// indices are in range), the row's read values are the registers its
/// source indices name, and the next row's registers are the VM step of
/// this row's: IMM writes the immediate, ADD, MUL and SUB the sum, product
/// and difference of the read values modulo p, into the destination
/// register only; NOP and HALT keep every register. The clock advances by
/// one, and the pc advances by one after a writing instruction and stays
/// after NOP and HALT.
pub proof fn lemma_air_transition_sound(cur: Seq<int>, next: Seq<int>)
    requires
        cur.len() == 13,
        next.len() == 13,
        forall|c: int| 0 <= c < 13 ==> 0 <= #[trigger] cur[c] < modulus(),
        forall|c: int| 0 <= c < 13 ==> 0 <= #[trigger] next[c] < modulus(),
        0 <= cur[2] < 6,
        0 <= cur[3] < 4,
        0 <= cur[4] < 4,
        0 <= cur[5] < 4,
        forall|j: int| 0 <= j < 8 ==> #[trigger] constraint_values(cur, next)[j] == 0,
    ensures
        cur[11] == cur[7 + cur[4]],
        cur[12] == cur[7 + cur[5]],
        next[0] == fmod(cur[0] + 1),
        next[1] == (if cur[2] == 0 || cur[2] == 5 { cur[1] } else { fmod(cur[1] + 1) }),
        forall|i: int| 0 <= i < 4 ==> #[trigger] next[7 + i] == (if i != cur[3] || cur[2] == 0 || cur[2] == 5 {
            cur[7 + i]
        } else if cur[2] == 1 {
            cur[6]
        } else if cur[2] == 2 {
            fmod(cur[11] + cur[12])
        } else if cur[2] == 3 {
            fmod(cur[11] * cur[12])
        } else {
            fmod(cur[11] - cur[12])
        }),
{
    let op = cur[2];
    let cv = constraint_values(cur, next);
    // the reads
    lemma_read(cur[4], cur);
    lemma_read(cur[5], cur);
    assert(cv[6] == 0);
    assert(cv[7] == 0);
    lemma_residues_equal(cur[11], cur[7 + cur[4]]);
    lemma_residues_equal(cur[12], cur[7 + cur[5]]);
    // the registers
    lemma_op_selectors(op);
    lemma_reg_selectors(cur[3]);
    let w = is_write_spec(op);
    lemma_fmod_small(0);
    lemma_fmod_small(1);
    if 1 <= op <= 4 {
        assert(w == 1);
        lemma_write_value(cur);
    } else {
        assert(w == 0);
    }
    // the clock and the pc
    assert(cv[0] == fmod(next[0] - cur[0] - 1));
    crate::field::lemma_fmod_range(cur[0] + 1);
    crate::field::lemma_fmod_sub_right(next[0], cur[0] + 1);
    assert(next[0] - (cur[0] + 1) == next[0] - cur[0] - 1);
    lemma_residues_equal(next[0], fmod(cur[0] + 1));
    let u = op_sel(op, 0) + op_sel(op, 5);
    let dp = next[1] - cur[1];
    assert(cv[1] == fmod(u * dp + w * (dp - 1)));
    if 1 <= op <= 4 {
        assert(u * dp + w * (dp - 1) == dp - 1) by (nonlinear_arith)
            requires
                u == 0,
                w == 1,
        ;
        crate::field::lemma_fmod_range(cur[1] + 1);
        crate::field::lemma_fmod_sub_right(next[1], cur[1] + 1);
        assert(next[1] - (cur[1] + 1) == dp - 1);
        lemma_residues_equal(next[1], fmod(cur[1] + 1));
    } else {
        assert(u * dp + w * (dp - 1) == dp) by (nonlinear_arith)
            requires
                u == 1,
                w == 0,
        ;
        lemma_residues_equal(next[1], cur[1]);
    }
    let wv = write_val_spec(cur);
    crate::field::lemma_fmod_range(
        op_sel(op, 1) * cur[6] + op_sel(op, 2) * (cur[11] + cur[12]) + op_sel(op, 3) * (cur[11] * cur[12]) + op_sel(op, 4) * (cur[11] - cur[12]),
    );
    assert forall|i: int| 0 <= i < 4 implies #[trigger] next[7 + i] == (if i != cur[3] || cur[2] == 0 || cur[2] == 5 {
        cur[7 + i]
    } else if cur[2] == 1 {
        cur[6]
    } else if cur[2] == 2 {
        fmod(cur[11] + cur[12])
    } else if cur[2] == 3 {
        fmod(cur[11] * cur[12])
    } else {
        fmod(cur[11] - cur[12])
    }) by {
        let s = reg_sel(cur[3], i);
        let d = wv - cur[7 + i];
        assert(cv[2 + i] == crate::air::reg_constraint_spec(cur, next, i));
        assert(fmod(next[7 + i] - cur[7 + i] - s * w * d) == 0);
        if i == cur[3] && 1 <= op <= 4 {
            assert(s * w * d == d) by (nonlinear_arith)
                requires
                    s == 1,
                    w == 1,
            ;
            assert(next[7 + i] - cur[7 + i] - s * w * d == next[7 + i] - wv);
            lemma_residues_equal(next[7 + i], wv);
        } else {
            assert(s * w == 0);
            assert(s * w * d == 0) by (nonlinear_arith)
                requires
                    s * w == 0,
            ;
            lemma_residues_equal(next[7 + i], cur[7 + i]);
        }
    }
}

/// The composition is the random linear combination of all eight
/// constraints: C_0 + alpha * C_1 + ... + alpha^7 * C_7 modulo p, with C the
/// constraint values of the transition.
pub proof fn lemma_composition_is_sum(cur: Seq<int>, next: Seq<int>, alpha: int)
    ensures
        ({
            let c = constraint_values(cur, next);
            composition_spec(cur, next, alpha) == fmod(
                c[0] + fpow(alpha, 1) * c[1] + fpow(alpha, 2) * c[2] + fpow(alpha, 3) * c[3] + fpow(alpha, 4) * c[4]
                    + fpow(alpha, 5) * c[5] + fpow(alpha, 6) * c[6] + fpow(alpha, 7) * c[7],
            )
        }),
{
    broadcast use crate::field::lemma_fmod_add_left;

    let c = constraint_values(cur, next);
    let f = |k: int| crate::air::compose_spec(c, alpha, k);
    assert(vstd::arithmetic::power::pow(alpha, 0) == 1) by {
        vstd::arithmetic::power::lemma_pow0(alpha);
    }
    lemma_fmod_small(1);
    assert(f(0) == 0);
    assert(f(1) == fmod(0 + fpow(alpha, 0) * c[0]));
    assert(fpow(alpha, 0) * c[0] == c[0]);
    assert(f(2) == fmod(f(1) + fpow(alpha, 1) * c[1]));
    assert(f(3) == fmod(f(2) + fpow(alpha, 2) * c[2]));
    assert(f(4) == fmod(f(3) + fpow(alpha, 3) * c[3]));
    assert(f(5) == fmod(f(4) + fpow(alpha, 4) * c[4]));
    assert(f(6) == fmod(f(5) + fpow(alpha, 5) * c[5]));
    assert(f(7) == fmod(f(6) + fpow(alpha, 6) * c[6]));
    assert(f(8) == fmod(f(7) + fpow(alpha, 7) * c[7]));
}

/// What an accepted STARK proof guarantees at every position the verifier
/// queries: the opened trace values, the next row's values and the quotient
/// value all lead to the committed roots through their Merkle paths, and the
/// composition of the opened rows equals the opened quotient times the
/// vanishing polynomial of the constrained rows there,
/// C(x) == Q(x) * (x^n - 1) / (x - w^(n-1)).
pub proof fn lemma_verify_accepts_sound(proof: StarkProof)
    requires
        verify_accepts(proof),
    ensures
        proof.query_responses.len() == verifier_indices(proof).len(),
        forall|q: int| 0 <= q < verifier_indices(proof).len() ==> {
            let r = #[trigger] proof.query_responses@[q];
            let n = proof.trace_length as nat;
            let size = 32 * proof.trace_length;
            let idx = verifier_indices(proof)[q] as int;
            let x = lde_point(n, idx as nat);
            &&& merkle_fold(sha256_spec(values_bytes(cols(r.trace_values))), size + idx, hashes_view(r.trace_proof.siblings@))
                == proof.trace_root@
            &&& merkle_fold(
                sha256_spec(values_bytes(cols(r.trace_next_values))),
                size + (idx + 32) % size,
                hashes_view(r.trace_next_proof.siblings@),
            ) == proof.trace_root@
            &&& merkle_fold(sha256_spec(le_bytes(r.quotient_value@ as nat, 8)), size + idx, hashes_view(r.quotient_proof.siblings@))
                == proof.quotient_root@
            &&& composition_spec(cols(r.trace_values), cols(r.trace_next_values), verifier_alpha(proof)) == fmod(
                r.quotient_value@ * fdiv(fmod(fpow(x, n) - 1), fmod(x - fpow(root_of_unity_spec(n as int), (n - 1) as nat))),
            )
        },
{
    assert forall|q: int| 0 <= q < verifier_indices(proof).len() implies {
        let r = #[trigger] proof.query_responses@[q];
        let n = proof.trace_length as nat;
        let size = 32 * proof.trace_length;
        let idx = verifier_indices(proof)[q] as int;
        let x = lde_point(n, idx as nat);
        &&& merkle_fold(sha256_spec(values_bytes(cols(r.trace_values))), size + idx, hashes_view(r.trace_proof.siblings@))
            == proof.trace_root@
        &&& merkle_fold(
            sha256_spec(values_bytes(cols(r.trace_next_values))),
            size + (idx + 32) % size,
            hashes_view(r.trace_next_proof.siblings@),
        ) == proof.trace_root@
        &&& merkle_fold(sha256_spec(le_bytes(r.quotient_value@ as nat, 8)), size + idx, hashes_view(r.quotient_proof.siblings@))
            == proof.quotient_root@
        &&& composition_spec(cols(r.trace_values), cols(r.trace_next_values), verifier_alpha(proof)) == fmod(
            r.quotient_value@ * fdiv(fmod(fpow(x, n) - 1), fmod(x - fpow(root_of_unity_spec(n as int), (n - 1) as nat))),
        )
    } by {
        assert(response_ok(proof, q));
    }
}

/// What an accepted FRI proof guarantees: every query opens every committed
/// layer; in every layer both opened values, the one at the query's position
/// and its partner half a layer away, are the values the layer's root
/// commits to there (their Merkle paths lead to that root); folding the
/// opened pair with that layer's challenge gives the value the query opens
/// at the folded position of the next layer, and after the last layer the
/// claimed final value; and the last layer's two values are equal.
pub proof fn lemma_fri_accepts_sound(proof: FriProof, betas: Seq<int>, g: int, offset: int, size: int, indices: Seq<usize>)
    requires
        fri_accepts(proof, betas, g, offset, size, indices),
    ensures
        forall|q: int| 0 <= q < indices.len() ==> (#[trigger] proof.query_proofs@[q]).layers.len() == proof.layer_roots.len(),
        forall|q: int, k: int| 0 <= q < indices.len() && 0 <= k < proof.layer_roots.len() ==> {
            let ql = #[trigger] proof.query_proofs@[q].layers@[k];
            let n = layer_size(size, k);
            let lo = verifier_pos(proof, size, indices, q, k);
            let folded = fold_pair(ql.value@, ql.sibling_value@, domain_point(layer_square(offset, k), layer_square(g, k), lo as nat), betas[k]);
            &&& merkle_fold(sha256_spec(le_bytes(ql.value@ as nat, 8)), n + lo, hashes_view(ql.proof.siblings@))
                == proof.layer_roots@[k]@
            &&& merkle_fold(sha256_spec(le_bytes(ql.sibling_value@ as nat, 8)), n + lo + n / 2, hashes_view(ql.sibling_proof.siblings@))
                == proof.layer_roots@[k]@
            &&& k + 1 < proof.layer_roots.len() ==> folded == (if lo % (n / 4) == lo {
                proof.query_proofs@[q].layers@[k + 1].value@
            } else {
                proof.query_proofs@[q].layers@[k + 1].sibling_value@
            })
            &&& k + 1 == proof.layer_roots.len() ==> folded == proof.final_value@ && ql.value@ == ql.sibling_value@
        },
{
    assert forall|q: int, k: int| 0 <= q < indices.len() && 0 <= k < proof.layer_roots.len() implies {
        let ql = #[trigger] proof.query_proofs@[q].layers@[k];
        let n = layer_size(size, k);
        let lo = verifier_pos(proof, size, indices, q, k);
        let folded = fold_pair(ql.value@, ql.sibling_value@, domain_point(layer_square(offset, k), layer_square(g, k), lo as nat), betas[k]);
        &&& merkle_fold(sha256_spec(le_bytes(ql.value@ as nat, 8)), n + lo, hashes_view(ql.proof.siblings@))
            == proof.layer_roots@[k]@
        &&& merkle_fold(sha256_spec(le_bytes(ql.sibling_value@ as nat, 8)), n + lo + n / 2, hashes_view(ql.sibling_proof.siblings@))
            == proof.layer_roots@[k]@
        &&& k + 1 < proof.layer_roots.len() ==> folded == (if lo % (n / 4) == lo {
            proof.query_proofs@[q].layers@[k + 1].value@
        } else {
            proof.query_proofs@[q].layers@[k + 1].sibling_value@
        })
        &&& k + 1 == proof.layer_roots.len() ==> folded == proof.final_value@ && ql.value@ == ql.sibling_value@
    } by {
        assert(proof.query_proofs@[q].layers.len() == proof.layer_roots.len());
        assert(fri_layer_ok(proof, betas, g, offset, size, indices, q, k));
    }
}

} // verus!
