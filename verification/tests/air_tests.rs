use zkvm_rs::air::{
    evaluate_composition, evaluate_transition_constraints, opcode_selector, register_selector, verify_trace_constraints,
};
use zkvm_rs::field::Fp;
use zkvm_rs::instruction::Instruction;
use zkvm_rs::vm;

#[test]
fn test_opcode_selector() {
    for op in 0..6u64 {
        let sel = opcode_selector(Fp::new(op), 2);
        if op == 2 {
            assert_eq!(sel, Fp::one(), "selector(2) should be 1 for opcode 2");
        } else {
            assert_eq!(sel, Fp::zero(), "selector(2) should be 0 for opcode {}", op);
        }
    }
}

#[test]
fn test_register_selector() {
    for target in 0..4u64 {
        for idx in 0..4u64 {
            let sel = register_selector(Fp::new(idx), target);
            if idx == target {
                assert_eq!(sel, Fp::one());
            } else {
                assert_eq!(sel, Fp::zero());
            }
        }
    }
}

#[test]
fn test_constraints_hold_for_valid_trace() {
    let program = vec![
        Instruction::imm(0, 3),
        Instruction::imm(1, 4),
        Instruction::add(2, 0, 1),
        Instruction::mul(3, 2, 2),
        Instruction::sub(0, 3, 2),
        Instruction::halt(),
    ];
    let mut trace = vm::execute(&program);
    trace.pad_to_power_of_two();
    assert!(verify_trace_constraints(&trace.rows).is_ok());
}

#[test]
fn test_constraints_catch_tampered_trace() {
    let program = vec![
        Instruction::imm(0, 3),
        Instruction::imm(1, 4),
        Instruction::add(2, 0, 1),
        Instruction::halt(),
    ];
    let mut trace = vm::execute(&program);
    trace.pad_to_power_of_two();
    // r2 in row 3 should be 7
    trace.rows[3].r2 = Fp::new(999);
    assert!(verify_trace_constraints(&trace.rows).is_err());
}

#[test]
fn air_reports_first_failing_constraint() {
    let program = vec![
        Instruction::imm(0, 3),
        Instruction::imm(1, 4),
        Instruction::add(2, 0, 1),
        Instruction::halt(),
    ];
    let mut trace = vm::execute(&program);
    trace.pad_to_power_of_two();
    trace.rows[3].r2 = Fp::new(999);
    // the transition 2 -> 3 breaks the r2 update (constraint 4)
    assert_eq!(verify_trace_constraints(&trace.rows), Err((2, 4)));
}

#[test]
fn air_selector_outside_range_is_nonzero() {
    assert_ne!(opcode_selector(Fp::new(9), 2), Fp::zero());
}

#[test]
fn air_constraints_vanish_on_valid_transition() {
    let program = vec![Instruction::imm(1, 5), Instruction::halt()];
    let trace = vm::execute(&program);
    let cur = trace.rows[0].to_array();
    let next = trace.rows[1].to_array();
    let cs = evaluate_transition_constraints(&cur, &next);
    for c in cs.iter() {
        assert_eq!(*c, Fp::zero());
    }
    assert_eq!(evaluate_composition(&cur, &next, Fp::new(12345)), Fp::zero());
}
