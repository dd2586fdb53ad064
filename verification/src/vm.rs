//! The virtual machine: runs a program from pc 0 with zeroed registers until
//! HALT and records the state before every instruction.
use crate::field::{fmod, Fp, P};
use crate::instruction::{opcode_code, Instruction, Opcode};
use crate::trace::{ExecutionTrace, TraceRow};
use vstd::prelude::*;

verus! {

broadcast use crate::field::group_fp;

/// The opcode writes a register.
pub open spec fn writes_register(op: Opcode) -> bool {
    op is Imm || op is Add || op is Mul || op is Sub
}

/// The effect of one instruction on the registers (residues).
pub open spec fn step_regs(regs: Seq<int>, inst: Instruction) -> Seq<int> {
    let a = regs[inst.rs1 as int];
    let b = regs[inst.rs2 as int];
    match inst.opcode {
        Opcode::Imm => regs.update(inst.rd as int, fmod(inst.imm as int)),
        Opcode::Add => regs.update(inst.rd as int, fmod(a + b)),
        Opcode::Mul => regs.update(inst.rd as int, fmod(a * b)),
        Opcode::Sub => regs.update(inst.rd as int, fmod(a - b)),
        _ => regs,
    }
}

/// The registers before instruction k runs (all registers start at zero).
pub open spec fn regs_before(program: Seq<Instruction>, k: nat) -> Seq<int>
    decreases k,
{
    if k == 0 {
        seq![0int, 0int, 0int, 0int]
    } else {
        step_regs(regs_before(program, (k - 1) as nat), program[k - 1])
    }
}

/// The index of the first HALT at or after `from` (the length if there is none).
pub open spec fn halt_index(program: Seq<Instruction>, from: int) -> int
    decreases program.len() - from,
{
    if from >= program.len() || from < 0 {
        program.len() as int
    } else if program[from].opcode is Halt {
        from
    } else {
        halt_index(program, from + 1)
    }
}

/// The instruction reads and writes registers that exist.
pub open spec fn operands_ok(inst: Instruction) -> bool {
    &&& inst.rs1 < 4
    &&& inst.rs2 < 4
    &&& writes_register(inst.opcode) ==> inst.rd < 4
}

/// The program reaches a HALT, and every instruction up to it names valid registers.
pub open spec fn program_runs(program: Seq<Instruction>) -> bool {
    &&& halt_index(program, 0) < program.len()
    &&& forall|k: int| 0 <= k <= halt_index(program, 0) ==> #[trigger] operands_ok(program[k])
}

/// The trace row recorded before instruction k runs.
pub open spec fn expected_row(program: Seq<Instruction>, k: nat) -> Seq<int> {
    let inst = program[k as int];
    let regs = regs_before(program, k);
    seq![
        fmod(k as int),
        fmod(k as int),
        opcode_code(inst.opcode) as int,
        inst.rd as int,
        inst.rs1 as int,
        inst.rs2 as int,
        fmod(inst.imm as int),
        regs[0],
        regs[1],
        regs[2],
        regs[3],
        regs[inst.rs1 as int],
        regs[inst.rs2 as int],
    ]
}

pub proof fn lemma_halt_index(program: Seq<Instruction>, from: int)
    requires
        0 <= from,
    ensures
        from <= halt_index(program, from) <= program.len() || from > program.len(),
        halt_index(program, from) < program.len() ==> program[halt_index(program, from)].opcode is Halt,
        forall|k: int| from <= k < halt_index(program, from) ==> !(#[trigger] program[k].opcode is Halt),
    decreases program.len() - from,
{
    if from < program.len() && !(program[from].opcode is Halt) {
        lemma_halt_index(program, from + 1);
    }
}

pub proof fn lemma_regs_range(program: Seq<Instruction>, k: nat)
    requires
        k <= program.len(),
        forall|j: int| 0 <= j < k ==> #[trigger] operands_ok(program[j]),
    ensures
        regs_before(program, k).len() == 4,
        forall|i: int| 0 <= i < 4 ==> 0 <= #[trigger] regs_before(program, k)[i] < crate::field::modulus(),
    decreases k,
{
    broadcast use crate::field::group_fmod;
    if k > 0 {
        lemma_regs_range(program, (k - 1) as nat);
        let inst = program[k - 1];
        assert(operands_ok(inst));
        let prev = regs_before(program, (k - 1) as nat);
        assert(regs_before(program, k) == step_regs(prev, inst));
        assert(0 <= fmod(inst.imm as int) < crate::field::modulus());
        assert(0 <= fmod(prev[inst.rs1 as int] + prev[inst.rs2 as int]) < crate::field::modulus());
        assert(0 <= fmod(prev[inst.rs1 as int] - prev[inst.rs2 as int]) < crate::field::modulus());
        assert(0 <= fmod(prev[inst.rs1 as int] * prev[inst.rs2 as int]) < crate::field::modulus());
    } else {
        assert(regs_before(program, 0) =~= seq![0int, 0int, 0int, 0int]);
    }
}

/// Look up a register value by index (0 to 3).
fn read_reg(regs: &Vec<Fp>, idx: u8) -> (r: Fp)
    requires
        regs.len() == 4,
        idx < 4,
    ensures
        r == regs[idx as int],
{
    regs[idx as usize]
}

/// Execute a program and return its execution trace: one row per instruction
/// up to and including the first HALT.
pub fn execute(program: &[Instruction]) -> (t: ExecutionTrace)
    requires
        program_runs(program@),
    ensures
        t.rows.len() == halt_index(program@, 0) + 1,
        t.real_len == t.rows.len(),
        forall|k: int| 0 <= k < t.rows.len() ==> (#[trigger] t.rows@[k])@ == expected_row(program@, k as nat),
{
    let ghost h = halt_index(program@, 0);
    proof {
        lemma_halt_index(program@, 0);
    }
    let mut regs: Vec<Fp> = Vec::new();
    regs.push(Fp::zero());
    regs.push(Fp::zero());
    regs.push(Fp::zero());
    regs.push(Fp::zero());
    let mut pc: usize = 0;
    let mut rows: Vec<TraceRow> = Vec::new();
    proof {
        assert(regs@.map_values(|f: Fp| f@) =~= regs_before(program@, 0));
    }
    loop
        invariant_except_break
            h == halt_index(program@, 0),
            program_runs(program@),
            0 <= h < program.len(),
            pc <= h,
            rows.len() == pc,
            regs.len() == 4,
            forall|i: int| 0 <= i < 4 ==> (#[trigger] regs[i])@ == regs_before(program@, pc as nat)[i],
            forall|k: int| 0 <= k < rows.len() ==> (#[trigger] rows@[k])@ == expected_row(program@, k as nat),
            program[h].opcode is Halt,
            forall|k: int| 0 <= k < h ==> !(#[trigger] program@[k].opcode is Halt),
        ensures
            rows.len() == h + 1,
            forall|k: int| 0 <= k < rows.len() ==> (#[trigger] rows@[k])@ == expected_row(program@, k as nat),
        decreases h - pc,
    {
        let inst = program[pc];
        let clk = rows.len() as u64;
        proof {
            assert(operands_ok(program@[pc as int]));
            lemma_regs_range(program@, pc as nat);
        }
        let rs1_val = read_reg(&regs, inst.rs1);
        let rs2_val = read_reg(&regs, inst.rs2);
        let row = TraceRow {
            clk: Fp::new(clk),
            pc: Fp::new(pc as u64),
            opcode: Fp::new(inst.opcode.code() as u64),
            rd: Fp::new(inst.rd as u64),
            rs1: Fp::new(inst.rs1 as u64),
            rs2: Fp::new(inst.rs2 as u64),
            imm: Fp::new(inst.imm),
            r0: regs[0],
            r1: regs[1],
            r2: regs[2],
            r3: regs[3],
            rs1_val,
            rs2_val,
        };
        proof {
            let e = expected_row(program@, pc as nat);
            vstd::arithmetic::div_mod::lemma_small_mod(opcode_code(inst.opcode) as nat, P as nat);
            vstd::arithmetic::div_mod::lemma_small_mod(inst.rd as nat, P as nat);
            vstd::arithmetic::div_mod::lemma_small_mod(inst.rs1 as nat, P as nat);
            vstd::arithmetic::div_mod::lemma_small_mod(inst.rs2 as nat, P as nat);
            assert(row@ =~= e);
        }
        rows.push(row);
        let ghost before = regs_before(program@, pc as nat);
        match inst.opcode {
            Opcode::Nop => {},
            Opcode::Imm => {
                regs.set(inst.rd as usize, Fp::new(inst.imm));
            },
            Opcode::Add => {
                regs.set(inst.rd as usize, rs1_val + rs2_val);
            },
            Opcode::Mul => {
                regs.set(inst.rd as usize, rs1_val * rs2_val);
            },
            Opcode::Sub => {
                regs.set(inst.rd as usize, rs1_val - rs2_val);
            },
            Opcode::Halt => {
                break ;
            },
        }
        proof {
            assert(regs_before(program@, (pc + 1) as nat) == step_regs(before, program@[pc as int]));
            assert forall|i: int| 0 <= i < 4 implies (#[trigger] regs[i])@ == regs_before(program@, (pc + 1) as nat)[i] by {}
        }
        pc += 1;
    }
    ExecutionTrace::new(rows)
}

} // verus!
