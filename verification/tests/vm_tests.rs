use zkvm_rs::field::Fp;
use zkvm_rs::instruction::{Instruction, Opcode};
use zkvm_rs::vm::execute;

#[test]
fn test_simple_program() {
    let program = vec![
        Instruction::imm(0, 3),
        Instruction::imm(1, 4),
        Instruction::add(2, 0, 1),
        Instruction::mul(3, 2, 2),
        Instruction::sub(0, 3, 2),
        Instruction::halt(),
    ];
    let trace = execute(&program);
    assert_eq!(trace.real_len, 6);
    let last = &trace.rows[trace.real_len - 1];
    assert_eq!(last.r0.value(), 42);
    assert_eq!(last.r1.value(), 4);
    assert_eq!(last.r2.value(), 7);
    assert_eq!(last.r3.value(), 49);
}

#[test]
fn test_padding() {
    let program = vec![Instruction::imm(0, 10), Instruction::halt()];
    let mut trace = execute(&program);
    assert_eq!(trace.real_len, 2);
    trace.pad_to_power_of_two();
    assert_eq!(trace.len(), 2);
}

#[test]
fn test_padding_to_next_power() {
    let program = vec![
        Instruction::imm(0, 1),
        Instruction::imm(1, 2),
        Instruction::add(2, 0, 1),
        Instruction::halt(),
    ];
    let mut trace = execute(&program);
    assert_eq!(trace.real_len, 4);
    trace.pad_to_power_of_two();
    assert_eq!(trace.len(), 4);
}

#[test]
fn test_trace_columns() {
    let program = vec![Instruction::imm(0, 5), Instruction::halt()];
    let mut trace = execute(&program);
    trace.pad_to_power_of_two();
    let clk_col = trace.get_column(0);
    assert_eq!(clk_col[0].value(), 0);
    assert_eq!(clk_col[1].value(), 1);
}

#[test]
fn vm_padding_rows_freeze_state() {
    let program = vec![
        Instruction::imm(0, 1),
        Instruction::imm(1, 2),
        Instruction::add(2, 0, 1),
        Instruction::mul(3, 2, 2),
        Instruction::halt(),
    ];
    let mut trace = execute(&program);
    assert_eq!(trace.len(), 5);
    trace.pad_to_power_of_two();
    assert_eq!(trace.len(), 8);
    assert_eq!(trace.real_len, 5);
    let last = trace.rows[4];
    for k in 5..8 {
        let row = trace.rows[k];
        assert_eq!(row.clk.value(), k as u64);
        assert_eq!(row.opcode, Fp::zero());
        assert_eq!(row.pc, last.pc);
        assert_eq!(row.r0, last.r0);
        assert_eq!(row.r3, last.r3);
        assert_eq!(row.rs1_val, last.r0);
    }
}

#[test]
fn vm_trace_records_operands() {
    let program = vec![Instruction::imm(2, 9), Instruction::sub(1, 2, 0), Instruction::halt()];
    let trace = execute(&program);
    let row = trace.rows[1];
    assert_eq!(row.opcode.value(), 4);
    assert_eq!(row.rs1_val.value(), 9);
    assert_eq!(row.rs2_val.value(), 0);
    assert_eq!(trace.rows[2].r1.value(), 9);
}

#[test]
fn instruction_opcode_codes() {
    assert_eq!(Opcode::from_u8(3), Opcode::Mul);
    assert_eq!(Opcode::Halt.code(), 5);
    assert_eq!(Instruction::nop().opcode, Opcode::Nop);
    let i = Instruction::mul(1, 2, 3);
    assert_eq!((i.rd, i.rs1, i.rs2, i.imm), (1, 2, 3, 0));
}
