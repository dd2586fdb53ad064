//! The AIR is sound for the VM: the padded trace of every program that
//! halts satisfies all transition constraints.
use crate::air::{transition_ok, 
    constraint_values, is_write_spec, lemma_selector_values, op_sel, pc_constraint_spec, read_spec,
    reg_constraint_spec, reg_sel, write_val_spec, NUM_CONSTRAINTS,
};
use crate::field::{fmod, lemma_fmod_small, modulus};
use crate::instruction::{Instruction, Opcode};
use crate::trace::padding_spec;
use crate::vm::{
    expected_row, halt_index, lemma_halt_index, lemma_regs_range, operands_ok, program_runs,
    regs_before, step_regs,
};
use vstd::prelude::*;

verus! {

// ---------------------------------------------------------------------------
// The constraints hold on every trace that the VM produces
// ---------------------------------------------------------------------------

pub(crate) proof fn lemma_op_selectors(op: int)
    requires
        0 <= op < 6,
    ensures
        forall|t: int| 0 <= t < 6 ==> #[trigger] op_sel(op, t) == (if op == t { 1int } else { 0int }),
{
    assert forall|t: int| 0 <= t < 6 implies #[trigger] op_sel(op, t) == (if op == t { 1int } else { 0int }) by {
        lemma_selector_values(op, t, 6);
    }
}

pub(crate) proof fn lemma_reg_selectors(idx: int)
    requires
        0 <= idx < 4,
    ensures
        forall|t: int| 0 <= t < 4 ==> #[trigger] reg_sel(idx, t) == (if idx == t { 1int } else { 0int }),
{
    assert forall|t: int| 0 <= t < 4 implies #[trigger] reg_sel(idx, t) == (if idx == t { 1int } else { 0int }) by {
        lemma_selector_values(idx, t, 4);
    }
}

/// The algebraic read of a valid register index is that register.
pub(crate) proof fn lemma_read(idx: int, cur: Seq<int>)
    requires
        cur.len() == 13,
        0 <= idx < 4,
        forall|r: int| 7 <= r < 11 ==> 0 <= #[trigger] cur[r] < modulus(),
    ensures
        read_spec(idx, cur) == cur[7 + idx],
{
    lemma_reg_selectors(idx);
    assert(reg_sel(idx, 0) == (if idx == 0 { 1int } else { 0int }));
    assert(reg_sel(idx, 1) == (if idx == 1 { 1int } else { 0int }));
    assert(reg_sel(idx, 2) == (if idx == 2 { 1int } else { 0int }));
    assert(reg_sel(idx, 3) == (if idx == 3 { 1int } else { 0int }));
    lemma_fmod_small(cur[7 + idx]);
}

/// A transition that keeps the register state (NOP, HALT) with the pc
/// unchanged makes all constraints zero.
proof fn lemma_constraints_zero_keep(cur: Seq<int>, next: Seq<int>)
    requires
        cur.len() == 13,
        next.len() == 13,
        cur[2] == 0 || cur[2] == 5,
        0 <= cur[4] < 4,
        0 <= cur[5] < 4,
        forall|r: int| 7 <= r < 11 ==> 0 <= #[trigger] cur[r] < modulus(),
        cur[11] == cur[7 + cur[4]],
        cur[12] == cur[7 + cur[5]],
        fmod(next[0] - cur[0] - 1) == 0,
        next[1] == cur[1],
        forall|r: int| 7 <= r < 11 ==> #[trigger] next[r] == cur[r],
    ensures
        forall|j: int| 0 <= j < NUM_CONSTRAINTS ==> #[trigger] constraint_values(cur, next)[j] == 0,
{
    let op = cur[2];
    lemma_op_selectors(op);
    lemma_fmod_small(0);
    assert(op_sel(op, 1) == 0 && op_sel(op, 2) == 0 && op_sel(op, 3) == 0 && op_sel(op, 4) == 0);
    assert(is_write_spec(op) == 0);
    assert(pc_constraint_spec(cur, next) == 0) by {
        let u = op_sel(op, 0) + op_sel(op, 5);
        assert(u * (next[1] - cur[1]) == 0) by (nonlinear_arith)
            requires
                next[1] == cur[1],
        ;
        assert(is_write_spec(op) * (next[1] - cur[1] - 1) == 0) by (nonlinear_arith)
            requires
                is_write_spec(op) == 0,
        ;
    }
    assert forall|i: int| 0 <= i < 4 implies #[trigger] reg_constraint_spec(cur, next, i) == 0 by {
        let s = reg_sel(cur[3], i);
        let d = write_val_spec(cur) - cur[7 + i];
        assert(s * is_write_spec(op) * d == 0) by (nonlinear_arith)
            requires
                is_write_spec(op) == 0,
        ;
        assert(next[7 + i] == cur[7 + i]);
    }
    lemma_read(cur[4], cur);
    lemma_read(cur[5], cur);
    let cv = constraint_values(cur, next);
    assert(cv[2] == reg_constraint_spec(cur, next, 0));
    assert(cv[3] == reg_constraint_spec(cur, next, 1));
    assert(cv[4] == reg_constraint_spec(cur, next, 2));
    assert(cv[5] == reg_constraint_spec(cur, next, 3));
    assert(cv[6] == fmod(cur[11] - read_spec(cur[4], cur)));
    assert(cv[7] == fmod(cur[12] - read_spec(cur[5], cur)));
}

/// The value a writing opcode stores, given the immediate and the two read values.
pub open spec fn written_value(op: int, imm: int, a: int, b: int) -> int {
    if op == 1 {
        imm
    } else if op == 2 {
        fmod(a + b)
    } else if op == 3 {
        fmod(a * b)
    } else {
        fmod(a - b)
    }
}

/// A writing transition (IMM, ADD, MUL, SUB) that increments the pc and
/// updates exactly the destination register makes all constraints zero.
proof fn lemma_constraints_zero_write(cur: Seq<int>, next: Seq<int>)
    requires
        cur.len() == 13,
        next.len() == 13,
        1 <= cur[2] <= 4,
        0 <= cur[3] < 4,
        0 <= cur[4] < 4,
        0 <= cur[5] < 4,
        0 <= cur[6] < modulus(),
        forall|r: int| 7 <= r < 11 ==> 0 <= #[trigger] cur[r] < modulus(),
        cur[11] == cur[7 + cur[4]],
        cur[12] == cur[7 + cur[5]],
        fmod(next[0] - cur[0] - 1) == 0,
        fmod(next[1] - cur[1] - 1) == 0,
        forall|r: int| 0 <= r < 4 ==> #[trigger] next[7 + r] == (if r == cur[3] {
            written_value(cur[2], cur[6], cur[11], cur[12])
        } else {
            cur[7 + r]
        }),
    ensures
        forall|j: int| 0 <= j < NUM_CONSTRAINTS ==> #[trigger] constraint_values(cur, next)[j] == 0,
{
    let op = cur[2];
    let a = cur[11];
    let b = cur[12];
    lemma_op_selectors(op);
    lemma_fmod_small(0);
    lemma_fmod_small(1);
    assert(op_sel(op, 0) == 0 && op_sel(op, 5) == 0);
    assert(is_write_spec(op) == 1);
    let wv = write_val_spec(cur);
    assert(wv == written_value(op, cur[6], a, b)) by {
        let s1 = op_sel(op, 1);
        let s2 = op_sel(op, 2);
        let s3 = op_sel(op, 3);
        let s4 = op_sel(op, 4);
        let t1 = s1 * cur[6];
        let t2 = s2 * (a + b);
        let t3 = s3 * (a * b);
        let t4 = s4 * (a - b);
        if op == 1 {
            assert(t1 + t2 + t3 + t4 == cur[6]) by (nonlinear_arith)
                requires
                    s1 == 1, s2 == 0, s3 == 0, s4 == 0,
                    t1 == s1 * cur[6], t2 == s2 * (a + b), t3 == s3 * (a * b), t4 == s4 * (a - b),
            ;
            lemma_fmod_small(cur[6]);
        } else if op == 2 {
            assert(t1 + t2 + t3 + t4 == a + b) by (nonlinear_arith)
                requires
                    s1 == 0, s2 == 1, s3 == 0, s4 == 0,
                    t1 == s1 * cur[6], t2 == s2 * (a + b), t3 == s3 * (a * b), t4 == s4 * (a - b),
            ;
        } else if op == 3 {
            assert(t1 + t2 + t3 + t4 == a * b) by (nonlinear_arith)
                requires
                    s1 == 0, s2 == 0, s3 == 1, s4 == 0,
                    t1 == s1 * cur[6], t2 == s2 * (a + b), t3 == s3 * (a * b), t4 == s4 * (a - b),
            ;
        } else {
            assert(t1 + t2 + t3 + t4 == a - b) by (nonlinear_arith)
                requires
                    s1 == 0, s2 == 0, s3 == 0, s4 == 1,
                    t1 == s1 * cur[6], t2 == s2 * (a + b), t3 == s3 * (a * b), t4 == s4 * (a - b),
            ;
        }
    }
    assert(pc_constraint_spec(cur, next) == 0) by {
        let u = op_sel(op, 0) + op_sel(op, 5);
        let dp = next[1] - cur[1];
        assert(u * dp + is_write_spec(op) * (dp - 1) == dp - 1) by (nonlinear_arith)
            requires
                u == 0,
                is_write_spec(op) == 1,
        ;
    }
    lemma_reg_selectors(cur[3]);
    assert forall|i: int| 0 <= i < 4 implies #[trigger] reg_constraint_spec(cur, next, i) == 0 by {
        let s = reg_sel(cur[3], i);
        let d = wv - cur[7 + i];
        if i == cur[3] {
            assert(s * is_write_spec(op) * d == d) by (nonlinear_arith)
                requires
                    s == 1,
                    is_write_spec(op) == 1,
            ;
            assert(next[7 + i] == wv);
        } else {
            assert(s * is_write_spec(op) * d == 0) by (nonlinear_arith)
                requires
                    s == 0,
            ;
            assert(next[7 + i] == cur[7 + i]);
        }
    }
    lemma_read(cur[4], cur);
    lemma_read(cur[5], cur);
    let cv = constraint_values(cur, next);
    assert(cv[2] == reg_constraint_spec(cur, next, 0));
    assert(cv[3] == reg_constraint_spec(cur, next, 1));
    assert(cv[4] == reg_constraint_spec(cur, next, 2));
    assert(cv[5] == reg_constraint_spec(cur, next, 3));
    assert(cv[6] == fmod(cur[11] - read_spec(cur[4], cur)));
    assert(cv[7] == fmod(cur[12] - read_spec(cur[5], cur)));
}

proof fn lemma_clk_step(k: int)
    ensures
        fmod(fmod(k + 1) - fmod(k) - 1) == 0,
{
    crate::field::lemma_fmod_sub_left(k + 1, fmod(k) + 1);
    assert(fmod(k + 1) - fmod(k) - 1 == fmod(k + 1) - (fmod(k) + 1));
    assert(k + 1 - (fmod(k) + 1) == k - fmod(k));
    crate::field::lemma_fmod_sub_right(k, k);
    lemma_fmod_small(0);
}

/// Row k of the padded trace of a program: the recorded row up to the HALT,
/// and frozen padding rows after it.
pub open spec fn vm_trace_row(program: Seq<Instruction>, k: nat) -> Seq<int> {
    let h = halt_index(program, 0);
    if k <= h {
        expected_row(program, k)
    } else {
        padding_spec(k as int, expected_row(program, h as nat))
    }
}

/// No NOP precedes the first HALT.
pub open spec fn no_nop_before_halt(program: Seq<Instruction>) -> bool {
    forall|k: int| 0 <= k < halt_index(program, 0) ==> !(#[trigger] program[k].opcode is Nop)
}

/// The AIR is sound for the VM: every transition of the padded trace of a
/// program that halts, and executes no NOP before its HALT, satisfies all
/// eight constraints.
pub proof fn lemma_vm_trace_satisfies_constraints(program: Seq<Instruction>, k: nat)
    requires
        program_runs(program),
        no_nop_before_halt(program),
    ensures
        forall|j: int| 0 <= j < NUM_CONSTRAINTS ==> #[trigger] constraint_values(
            vm_trace_row(program, k),
            vm_trace_row(program, k + 1),
        )[j] == 0,
{
    let h = halt_index(program, 0);
    lemma_halt_index(program, 0);
    let cur = vm_trace_row(program, k);
    let next = vm_trace_row(program, k + 1);
    lemma_clk_step(k as int);
    if k < h {
        let inst = program[k as int];
        assert(operands_ok(inst));
        assert(!(inst.opcode is Halt));
        assert(!(inst.opcode is Nop));
        assert forall|j: int| 0 <= j < k + 1 implies #[trigger] operands_ok(program[j]) by {}
        lemma_regs_range(program, k);
        lemma_regs_range(program, k + 1);
        let regs = regs_before(program, k);
        assert(regs_before(program, k + 1) == step_regs(regs, inst));
        assert(cur == expected_row(program, k));
        assert(next == expected_row(program, k + 1));
        crate::field::lemma_fmod_range(inst.imm as int);
        assert forall|r: int| 0 <= r < 4 implies #[trigger] next[7 + r] == (if r == cur[3] {
            written_value(cur[2], cur[6], cur[11], cur[12])
        } else {
            cur[7 + r]
        }) by {
            assert(next[7 + r] == regs_before(program, k + 1)[r]);
            assert(cur[7 + r] == regs[r]);
        }
        assert forall|r: int| 7 <= r < 11 implies 0 <= #[trigger] cur[r] < modulus() by {
            assert(cur[r] == regs[r - 7]);
        }
        lemma_constraints_zero_write(cur, next);
    } else if k == h {
        let inst = program[k as int];
        assert(operands_ok(inst));
        assert forall|j: int| 0 <= j < k implies #[trigger] operands_ok(program[j]) by {}
        lemma_regs_range(program, k);
        let regs = regs_before(program, k);
        assert(cur == expected_row(program, k));
        assert forall|r: int| 7 <= r < 11 implies 0 <= #[trigger] cur[r] < modulus() by {
            assert(cur[r] == regs[r - 7]);
        }
        assert forall|r: int| 7 <= r < 11 implies #[trigger] next[r] == cur[r] by {}
        lemma_constraints_zero_keep(cur, next);
    } else {
        let last = expected_row(program, h as nat);
        assert forall|j: int| 0 <= j < h implies #[trigger] operands_ok(program[j]) by {}
        lemma_regs_range(program, h as nat);
        let regs = regs_before(program, h as nat);
        assert forall|r: int| 7 <= r < 11 implies 0 <= #[trigger] cur[r] < modulus() by {
            assert(cur[r] == last[r]);
            assert(last[r] == regs[r - 7]);
        }
        assert forall|r: int| 7 <= r < 11 implies #[trigger] next[r] == cur[r] by {}
        lemma_constraints_zero_keep(cur, next);
    }
}

/// The trace that `execute` records for a program, padded as
/// `pad_to_power_of_two` pads it (each padding row frozen after the HALT
/// row), satisfies every transition constraint, so `verify_trace_constraints`
/// accepts it; this holds for every program that halts and runs no NOP
/// before its HALT.
pub proof fn lemma_padded_trace_satisfies_constraints(program: Seq<Instruction>, rows: Seq<Seq<int>>)
    requires
        program_runs(program),
        no_nop_before_halt(program),
        rows.len() > halt_index(program, 0),
        forall|k: int| 0 <= k <= halt_index(program, 0) ==> #[trigger] rows[k] == expected_row(program, k as nat),
        forall|k: int| halt_index(program, 0) < k < rows.len() ==> #[trigger] rows[k] == padding_spec(
            k,
            expected_row(program, halt_index(program, 0) as nat),
        ),
    ensures
        forall|i: int| 0 <= i < rows.len() - 1 ==> #[trigger] transition_ok(rows, i),
{
    assert forall|i: int| 0 <= i < rows.len() - 1 implies #[trigger] transition_ok(rows, i) by {
        assert(rows[i] == vm_trace_row(program, i as nat));
        assert(rows[i + 1] == vm_trace_row(program, (i + 1) as nat));
        lemma_vm_trace_satisfies_constraints(program, i as nat);
    }
}

} // verus!
