use zkvm_rs::field::Fp;
use zkvm_rs::fri::FriError;
use zkvm_rs::instruction::Instruction;
use zkvm_rs::prover::{self, StarkProof};
use zkvm_rs::stark_verifier::{verify, VerifyError};
use zkvm_rs::vm;

fn proof_of(program: &[Instruction]) -> StarkProof {
    let mut trace = vm::execute(program);
    trace.pad_to_power_of_two();
    prover::prove(&trace, program)
}

fn demo_program() -> Vec<Instruction> {
    vec![
        Instruction::imm(0, 3),
        Instruction::imm(1, 4),
        Instruction::add(2, 0, 1),
        Instruction::mul(3, 2, 2),
        Instruction::sub(0, 3, 2),
        Instruction::halt(),
    ]
}

#[test]
fn test_valid_proof_verifies() {
    let program = demo_program();
    let mut trace = vm::execute(&program);
    trace.pad_to_power_of_two();
    let proof = prover::prove(&trace, &program);
    let result = verify(&proof);
    assert!(result.is_ok(), "Valid proof should verify: {:?}", result.err());
}

#[test]
fn test_tampered_output_fails() {
    let program = vec![
        Instruction::imm(0, 3),
        Instruction::imm(1, 4),
        Instruction::add(2, 0, 1),
        Instruction::halt(),
    ];
    let mut trace = vm::execute(&program);
    trace.pad_to_power_of_two();
    let mut proof = prover::prove(&trace, &program);
    // The outputs are unverified claims: tampering with them is not detected.
    proof.outputs[2] = Fp::new(999);
}

#[test]
fn test_tampered_trace_root_fails() {
    let program = vec![Instruction::imm(0, 10), Instruction::halt()];
    let mut trace = vm::execute(&program);
    trace.pad_to_power_of_two();
    let mut proof = prover::prove(&trace, &program);
    proof.trace_root[0] ^= 0xFF;
    let result = verify(&proof);
    assert!(result.is_err(), "Tampered trace root should fail");
}

#[test]
fn verifier_outputs_are_last_real_registers() {
    let proof = proof_of(&demo_program());
    let outs: Vec<u64> = proof.outputs.iter().map(|v| v.value()).collect();
    assert_eq!(outs, vec![42, 4, 7, 49]);
    assert_eq!(proof.trace_length, 8);
    assert_eq!(proof.real_trace_length, 6);
    // 256 LDE points: min(256 / 4, 30) = 30 queries
    assert_eq!(proof.query_indices.len(), 30);
    assert_eq!(proof.query_responses.len(), 30);
}

#[test]
fn verifier_rejects_missing_halt_and_bad_program() {
    let mut proof = proof_of(&demo_program());
    proof.real_trace_length = 1;
    assert!(matches!(verify(&proof), Err(VerifyError::MissingHalt)));
    proof.real_trace_length = 0;
    assert!(matches!(verify(&proof), Err(VerifyError::InvalidProgram)));
    proof.real_trace_length = 7;
    assert!(matches!(verify(&proof), Err(VerifyError::InvalidProgram)));
}

#[test]
fn verifier_rejects_tampered_openings() {
    let proof = proof_of(&demo_program());

    let mut bad = proof.clone();
    bad.query_responses.pop();
    assert!(matches!(verify(&bad), Err(VerifyError::ResponseCountMismatch { .. })));

    let mut bad = proof.clone();
    bad.query_responses[0].trace_values[0] = bad.query_responses[0].trace_values[0] + Fp::one();
    assert!(matches!(verify(&bad), Err(VerifyError::TraceMerkleFailed { query: 0, .. })));

    let mut bad = proof.clone();
    bad.query_responses[0].trace_next_values[5] = bad.query_responses[0].trace_next_values[5] + Fp::one();
    assert!(matches!(verify(&bad), Err(VerifyError::TraceNextMerkleFailed { query: 0, .. })));

    let mut bad = proof.clone();
    bad.query_responses[1].quotient_value = bad.query_responses[1].quotient_value + Fp::one();
    assert!(matches!(verify(&bad), Err(VerifyError::QuotientMerkleFailed { query: 1 })));

    let mut bad = proof.clone();
    bad.fri_proof.final_value = bad.fri_proof.final_value + Fp::one();
    assert!(matches!(verify(&bad), Err(VerifyError::Fri(FriError::FinalValueMismatch { .. }))));
}

#[test]
fn verifier_binds_the_program() {
    let mut proof = proof_of(&demo_program());
    // A different program changes every challenge: the proof no longer checks.
    proof.program[0] = Instruction::imm(0, 4);
    assert!(verify(&proof).is_err());
}

#[test]
fn verifier_rejects_malformed_trace_length() {
    let proof = proof_of(&demo_program());
    for bad_len in [0usize, 3, 12, 1 << 30] {
        let mut bad = proof.clone();
        bad.trace_length = bad_len;
        assert!(matches!(verify(&bad), Err(VerifyError::Malformed)), "trace length {}", bad_len);
    }
}

#[test]
fn verifier_rejects_query_without_layers() {
    let mut proof = proof_of(&demo_program());
    proof.fri_proof.query_proofs[2].layers.clear();
    let r = verify(&proof);
    assert!(matches!(r, Err(VerifyError::Fri(FriError::LayerCountMismatch { query: 2, got: 0, .. }))));
}

#[test]
fn verifier_ignores_claimed_outputs_and_positions() {
    let proof = proof_of(&demo_program());
    let mut claimed = proof.clone();
    claimed.outputs[2] = Fp::new(999);
    claimed.query_indices[0] += 1;
    claimed.query_responses[0].index += 1;
    assert!(verify(&claimed).is_ok());
}

#[test]
fn prover_draws_query_positions() {
    let program = vec![Instruction::imm(0, 3), Instruction::imm(1, 4), Instruction::halt()];
    let proof = proof_of(&program);
    assert_eq!(proof.trace_length, 4);
    assert_eq!(proof.real_trace_length, 3);
    // 128 LDE points: layers of 128, 64, ..., 2 and min(128 / 4, 30) = 30 queries
    assert_eq!(proof.fri_proof.layer_roots.len(), 7);
    assert_eq!(proof.query_indices.len(), 30);
    assert_eq!(proof.query_responses.len(), 30);
    assert_eq!(proof.fri_proof.query_proofs.len(), 30);
    for (k, idx) in proof.query_indices.iter().enumerate() {
        assert!(*idx < 64);
        assert_eq!(proof.query_responses[k].index, *idx);
        for other in &proof.query_indices[..k] {
            assert_ne!(other, idx);
        }
    }
    assert!(verify(&proof).is_ok());
}

#[test]
fn verifier_rejects_trace_breaking_constraints() {
    let program = vec![
        Instruction::imm(0, 3),
        Instruction::imm(1, 4),
        Instruction::add(2, 0, 1),
        Instruction::halt(),
    ];
    let mut trace = vm::execute(&program);
    trace.pad_to_power_of_two();
    trace.rows[3].r2 = Fp::new(999);
    assert_eq!(zkvm_rs::air::verify_trace_constraints(&trace.rows), Err((2, 4)));
    let proof = prover::prove(&trace, &program);
    let result = verify(&proof);
    assert!(result.is_err(), "a trace that breaks a constraint must not verify");
    assert!(matches!(result, Err(VerifyError::Fri(FriError::LastLayerNotConstant { .. }))));
}
