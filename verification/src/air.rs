//! The algebraic intermediate representation: the transition constraints
//! that adjacent trace rows must satisfy, written with Lagrange selectors
//! so that every constraint is a polynomial in the row values.
use crate::field::{finv, fmod, fpow, lemma_finv, lemma_fmod_nonzero_product, lemma_fmod_small, modulus, Fp, P};
use crate::trace::{rows_view, TraceRow, NUM_COLUMNS};
use vstd::arithmetic::power::pow;
use vstd::prelude::*;

verus! {

broadcast use crate::field::group_fp;

/// Number of opcodes (NOP=0, IMM=1, ADD=2, MUL=3, SUB=4, HALT=5).
pub const NUM_OPCODES: u64 = 6;

/// Number of registers.
pub const NUM_REGS: u64 = 4;

/// Number of transition constraints.
pub const NUM_CONSTRAINTS: usize = 8;

/// The product over v < j, v != t, of (x - v), reduced modulo p.
pub open spec fn lagrange_prod(x: int, t: int, j: int) -> int
    decreases j,
{
    if j <= 0 {
        1
    } else if j - 1 == t {
        lagrange_prod(x, t, j - 1)
    } else {
        fmod(lagrange_prod(x, t, j - 1) * (x - (j - 1)))
    }
}

/// The Lagrange basis polynomial over {0, ..., count-1} for the node t, at x.
#[verifier::opaque]
pub open spec fn selector_spec(x: int, t: int, count: int) -> int {
    fmod(lagrange_prod(x, t, count) * finv(lagrange_prod(fmod(t), t, count)))
}

/// The target's residue differs from every other node in {0, ..., count-1}.
pub open spec fn selector_target_ok(t: int, count: int) -> bool {
    fmod(t) == t || fmod(t) >= count
}

proof fn lemma_lagrange_prod_range(x: int, t: int, j: int)
    ensures
        0 <= lagrange_prod(x, t, j) < modulus(),
    decreases j,
{
    broadcast use crate::field::group_fmod;

    if j > 0 {
        lemma_lagrange_prod_range(x, t, j - 1);
    }
}

proof fn lemma_lagrange_prod_nonzero(x: int, t: int, j: int)
    requires
        0 <= x < modulus(),
        x >= j || x == t,
        j <= 6,
    ensures
        lagrange_prod(x, t, j) != 0,
    decreases j,
{
    broadcast use crate::field::group_fmod;

    if j > 0 {
        lemma_lagrange_prod_nonzero(x, t, j - 1);
        if j - 1 != t {
            lemma_lagrange_prod_range(x, t, j - 1);
            lemma_fmod_nonzero_product(lagrange_prod(x, t, j - 1), x, j - 1);
        }
    }
}

proof fn lemma_lagrange_prod_zero(x: int, t: int, j: int)
    requires
        0 <= x < j,
        x != t,
    ensures
        lagrange_prod(x, t, j) == 0,
    decreases j,
{
    broadcast use crate::field::group_fmod;

    lemma_fmod_small(0);
    if x < j - 1 {
        lemma_lagrange_prod_zero(x, t, j - 1);
        if j - 1 != t {
            assert(0 * (x - (j - 1)) == 0);
        }
    } else {
        assert(lagrange_prod(x, t, j - 1) * 0 == 0);
    }
}

/// The selector is 1 at its own node and 0 at every other node.
pub proof fn lemma_selector_values(x: int, t: int, count: int)
    requires
        0 <= x < count,
        0 <= t < count,
        count <= 6,
    ensures
        selector_spec(x, t, count) == (if x == t { 1int } else { 0int }),
{
    broadcast use crate::field::group_fmod;

    reveal(selector_spec);
    lemma_fmod_small(t);
    if x == t {
        lemma_lagrange_prod_nonzero(x, t, count);
        let d = lagrange_prod(x, t, count);
        lemma_lagrange_prod_range(x, t, count);
        lemma_fmod_small(d);
        lemma_finv(d);
    } else {
        lemma_lagrange_prod_zero(x, t, count);
        assert(0 * finv(lagrange_prod(fmod(t), t, count)) == 0);
    }
}

/// Shared body of the opcode and register selectors.
fn selector(x: Fp, target: u64, count: u64) -> (r: Fp)
    requires
        count <= 6,
        selector_target_ok(target as int, count as int),
    ensures
        r@ == selector_spec(x@, target as int, count as int),
{
    broadcast use crate::field::group_fmod;

    let mut num = Fp::one();
    let mut den = Fp::one();
    let t = Fp::new(target);
    let mut v: u64 = 0;
    while v < count
        invariant
            v <= count,
            count <= 6,
            t@ == fmod(target as int),
            num@ == lagrange_prod(x@, target as int, v as int),
            den@ == lagrange_prod(t@, target as int, v as int),
        decreases count - v,
    {
        if v != target {
            let fv = Fp::new(v);
            proof {
                lemma_fmod_small(v as int);
            }
            let ghost n0 = num@;
            let ghost d0 = den@;
            num = num * (x - fv);
            den = den * (t - fv);
            proof {
                broadcast use crate::field::group_fmod;

                assert(fmod(n0 * fmod(x@ - v)) == fmod(n0 * (x@ - v)));
                assert(fmod(d0 * fmod(t@ - v)) == fmod(d0 * (t@ - v)));
            }
        }
        v += 1;
    }
    proof {
        lemma_fmod_small(t@);
        lemma_lagrange_prod_nonzero(t@, target as int, count as int);
    }
    let r = num * den.inv();
    proof {
        reveal(selector_spec);
    }
    r
}

/// Opcode selector: 1 when `opcode == target`, 0 for the other opcodes;
/// the Lagrange basis polynomial of degree 5 over {0, ..., 5}.
pub fn opcode_selector(opcode: Fp, target: u64) -> (r: Fp)
    requires
        selector_target_ok(target as int, 6),
    ensures
        r@ == selector_spec(opcode@, target as int, 6),
{
    selector(opcode, target, NUM_OPCODES)
}

/// Register selector: the Lagrange basis polynomial of degree 3 over {0, 1, 2, 3}.
pub fn register_selector(idx: Fp, target: u64) -> (r: Fp)
    requires
        selector_target_ok(target as int, 4),
    ensures
        r@ == selector_spec(idx@, target as int, 4),
{
    selector(idx, target, NUM_REGS)
}

/// The opcode selector at an opcode value.
pub open spec fn op_sel(op: int, t: int) -> int {
    selector_spec(op, t, 6)
}

/// The register selector at a register index.
pub open spec fn reg_sel(idx: int, t: int) -> int {
    selector_spec(idx, t, 4)
}

/// 1 for the writing instructions (IMM, ADD, MUL, SUB), 0 for the others.
pub open spec fn is_write_spec(op: int) -> int {
    fmod(op_sel(op, 1) + op_sel(op, 2) + op_sel(op, 3) + op_sel(op, 4))
}

/// The value a writing instruction stores in its destination register.
pub open spec fn write_val_spec(cur: Seq<int>) -> int {
    let op = cur[2];
    let a = cur[11];
    let b = cur[12];
    fmod(op_sel(op, 1) * cur[6] + op_sel(op, 2) * (a + b) + op_sel(op, 3) * (a * b) + op_sel(op, 4) * (a - b))
}

/// The register named by the index `idx`, selected algebraically from r0..r3.
pub open spec fn read_spec(idx: int, cur: Seq<int>) -> int {
    fmod(reg_sel(idx, 0) * cur[7] + reg_sel(idx, 1) * cur[8] + reg_sel(idx, 2) * cur[9] + reg_sel(idx, 3) * cur[10])
}

/// Register update constraint for register i.
pub open spec fn reg_constraint_spec(cur: Seq<int>, next: Seq<int>, i: int) -> int {
    fmod(next[7 + i] - cur[7 + i] - reg_sel(cur[3], i) * is_write_spec(cur[2]) * (write_val_spec(cur) - cur[7 + i]))
}

/// C0: the clock increments by 1.
pub open spec fn clk_constraint_spec(cur: Seq<int>, next: Seq<int>) -> int {
    fmod(next[0] - cur[0] - 1)
}

/// C1: NOP and HALT keep the pc; the writing instructions increment it.
pub open spec fn pc_constraint_spec(cur: Seq<int>, next: Seq<int>) -> int {
    let op = cur[2];
    fmod((op_sel(op, 0) + op_sel(op, 5)) * (next[1] - cur[1]) + is_write_spec(op) * (next[1] - cur[1] - 1))
}

/// The eight transition constraints between a row and the next one
/// (columns: 0=clk, 1=pc, 2=opcode, 3=rd, 4=rs1, 5=rs2, 6=imm,
/// 7..10=r0..r3, 11=rs1_val, 12=rs2_val).
pub open spec fn constraint_values(cur: Seq<int>, next: Seq<int>) -> Seq<int> {
    let op = cur[2];
    seq![
        clk_constraint_spec(cur, next),
        pc_constraint_spec(cur, next),
        reg_constraint_spec(cur, next, 0),
        reg_constraint_spec(cur, next, 1),
        reg_constraint_spec(cur, next, 2),
        reg_constraint_spec(cur, next, 3),
        fmod(cur[11] - read_spec(cur[4], cur)),
        fmod(cur[12] - read_spec(cur[5], cur)),
    ]
}

/// The residues of a row given as an array of columns.
pub open spec fn cols(a: [Fp; NUM_COLUMNS]) -> Seq<int> {
    a@.map_values(|f: Fp| f@)
}

fn reg_constraint(current: &[Fp; NUM_COLUMNS], next: &[Fp; NUM_COLUMNS], i: usize, is_write: Fp, write_val: Fp) -> (r: Fp)
    requires
        i < 4,
        is_write@ == is_write_spec(cols(*current)[2]),
        write_val@ == write_val_spec(cols(*current)),
    ensures
        r@ == reg_constraint_spec(cols(*current), cols(*next), i as int),
{
    broadcast use crate::field::group_fmod;

    let sel_i = register_selector(current[3], i as u64);
    let cur_ri = current[7 + i];
    let next_ri = next[7 + i];
    proof {
        lemma_fmod_small(i as int);
        assert(cols(*current)[3] == current[3]@);
        assert(cols(*current)[7 + i] == cur_ri@);
        assert(cols(*next)[7 + i] == next_ri@);
    }
    let r = next_ri - cur_ri - sel_i * is_write * (write_val - cur_ri);
    proof {
        let s = sel_i@;
        let w = is_write@;
        let d = write_val@ - cur_ri@;
        assert(fmod(fmod(s * w) * fmod(d)) == fmod(s * w * d)) by {
            assert(fmod(fmod(s * w) * fmod(d)) == fmod((s * w) * fmod(d)));
            assert(fmod((s * w) * fmod(d)) == fmod((s * w) * d));
        }
        assert(fmod(fmod(next_ri@ - cur_ri@) - fmod(s * w * d)) == fmod(next_ri@ - cur_ri@ - s * w * d)) by {
            assert(fmod(fmod(next_ri@ - cur_ri@) - fmod(s * w * d)) == fmod((next_ri@ - cur_ri@) - fmod(s * w * d)));
            assert(fmod((next_ri@ - cur_ri@) - fmod(s * w * d)) == fmod((next_ri@ - cur_ri@) - s * w * d));
        }
    }
    r
}

fn read_expected(current: &[Fp; NUM_COLUMNS], idx: Fp) -> (r: Fp)
    ensures
        r@ == read_spec(idx@, cols(*current)),
{
    broadcast use crate::field::group_fmod;

    let mut acc = Fp::zero();
    proof {
        lemma_fmod_small(0);
        lemma_fmod_small(1);
        lemma_fmod_small(2);
        lemma_fmod_small(3);
    }
    let s0 = register_selector(idx, 0);
    let s1 = register_selector(idx, 1);
    let s2 = register_selector(idx, 2);
    let s3 = register_selector(idx, 3);
    acc = acc + s0 * current[7];
    acc = acc + s1 * current[8];
    acc = acc + s2 * current[9];
    acc = acc + s3 * current[10];
    proof {
        let c = cols(*current);
        assert(c[7] == current[7]@);
        assert(c[8] == current[8]@);
        assert(c[9] == current[9]@);
        assert(c[10] == current[10]@);
        let t0 = s0@ * c[7];
        let t1 = s1@ * c[8];
        let t2 = s2@ * c[9];
        let t3 = s3@ * c[10];
        assert(fmod(0 + fmod(t0)) == fmod(t0));
        assert(fmod(fmod(t0) + fmod(t1)) == fmod(t0 + t1));
        assert(fmod(fmod(t0 + t1) + fmod(t2)) == fmod(t0 + t1 + t2));
        assert(fmod(fmod(t0 + t1 + t2) + fmod(t3)) == fmod(t0 + t1 + t2 + t3));
    }
    acc
}

fn opcode_selectors(op: Fp) -> (s: (Fp, Fp, Fp, Fp, Fp, Fp))
    ensures
        s.0@ == op_sel(op@, 0),
        s.1@ == op_sel(op@, 1),
        s.2@ == op_sel(op@, 2),
        s.3@ == op_sel(op@, 3),
        s.4@ == op_sel(op@, 4),
        s.5@ == op_sel(op@, 5),
{
    proof {
        lemma_fmod_small(0);
        lemma_fmod_small(1);
        lemma_fmod_small(2);
        lemma_fmod_small(3);
        lemma_fmod_small(4);
        lemma_fmod_small(5);
    }
    (
        opcode_selector(op, 0),
        opcode_selector(op, 1),
        opcode_selector(op, 2),
        opcode_selector(op, 3),
        opcode_selector(op, 4),
        opcode_selector(op, 5),
    )
}

/// Whether the instruction writes, and the value it writes.
fn write_terms(current: &[Fp; NUM_COLUMNS]) -> (w: (Fp, Fp))
    ensures
        w.0@ == is_write_spec(cols(*current)[2]),
        w.1@ == write_val_spec(cols(*current)),
{
    broadcast use crate::field::group_fmod;

    let ghost c = cols(*current);
    let op = current[2];
    let imm = current[6];
    let rs1_val = current[11];
    let rs2_val = current[12];
    let (s_nop, s_imm, s_add, s_mul, s_sub, s_halt) = opcode_selectors(op);
    let is_write = s_imm + s_add + s_mul + s_sub;
    let write_val = s_imm * imm + s_add * (rs1_val + rs2_val) + s_mul * (rs1_val * rs2_val) + s_sub * (
    rs1_val - rs2_val);
    proof {
        assert(c[2] == op@);
        assert(c[6] == imm@);
        assert(c[11] == rs1_val@);
        assert(c[12] == rs2_val@);
        let a = rs1_val@;
        let b = rs2_val@;
        assert(fmod(fmod(s_imm@ + s_add@) + s_mul@) == fmod(s_imm@ + s_add@ + s_mul@));
        assert(fmod(fmod(s_imm@ + s_add@ + s_mul@) + s_sub@) == fmod(s_imm@ + s_add@ + s_mul@ + s_sub@));
        let t1 = s_imm@ * imm@;
        let t2 = s_add@ * (a + b);
        let t3 = s_mul@ * (a * b);
        let t4 = s_sub@ * (a - b);
        assert(fmod(s_add@ * fmod(a + b)) == fmod(t2));
        assert(fmod(s_mul@ * fmod(a * b)) == fmod(t3));
        assert(fmod(s_sub@ * fmod(a - b)) == fmod(t4));
        assert(fmod(fmod(t1) + fmod(t2)) == fmod(t1 + t2));
        assert(fmod(fmod(t1 + t2) + fmod(t3)) == fmod(t1 + t2 + t3));
        assert(fmod(fmod(t1 + t2 + t3) + fmod(t4)) == fmod(t1 + t2 + t3 + t4));
    }
    (is_write, write_val)
}

/// C1: NOP and HALT keep the pc; the writing instructions increment it.
fn pc_constraint(current: &[Fp; NUM_COLUMNS], next: &[Fp; NUM_COLUMNS], is_write: Fp) -> (r: Fp)
    requires
        is_write@ == is_write_spec(cols(*current)[2]),
    ensures
        r@ == pc_constraint_spec(cols(*current), cols(*next)),
{
    broadcast use crate::field::group_fmod;

    let ghost c = cols(*current);
    let ghost n = cols(*next);
    let (s_nop, s_imm, s_add, s_mul, s_sub, s_halt) = opcode_selectors(current[2]);
    let r = (s_nop + s_halt) * (next[1] - current[1]) + (s_imm + s_add + s_mul + s_sub) * (next[1]
        - current[1] - Fp::one());
    proof {
        assert(c[2] == current[2]@);
        assert(c[1] == current[1]@);
        assert(n[1] == next[1]@);
        let dp = n[1] - c[1];
        let u = s_nop@ + s_halt@;
        let w = is_write_spec(c[2]);
        assert(fmod(fmod(s_imm@ + s_add@) + s_mul@) == fmod(s_imm@ + s_add@ + s_mul@));
        assert(fmod(fmod(s_imm@ + s_add@ + s_mul@) + s_sub@) == w);
        assert(fmod(fmod(u) * fmod(dp)) == fmod(u * dp)) by {
            assert(fmod(fmod(u) * fmod(dp)) == fmod(u * fmod(dp)));
        }
        assert(fmod(fmod(dp) - 1) == fmod(dp - 1));
        assert(fmod(w * fmod(dp - 1)) == fmod(w * (dp - 1)));
        assert(fmod(fmod(u * dp) + fmod(w * (dp - 1))) == fmod(u * dp + w * (dp - 1)));
    }
    r
}

/// Evaluate the eight transition constraints between two adjacent rows;
/// all are zero for a valid transition.
#[verifier::rlimit(60)]
pub fn evaluate_transition_constraints(current: &[Fp; NUM_COLUMNS], next: &[Fp; NUM_COLUMNS]) -> (r: [Fp; NUM_CONSTRAINTS])
    ensures
        forall|j: int| 0 <= j < NUM_CONSTRAINTS ==> (#[trigger] r@[j])@ == constraint_values(cols(*current), cols(*next))[j],
{
    let ghost c = cols(*current);
    let ghost n = cols(*next);
    let (is_write, write_val) = write_terms(current);
    // C0: the clock increments by 1.
    let c0 = next[0] - current[0] - Fp::one();
    proof {
        assert(c[0] == current[0]@);
        assert(n[0] == next[0]@);
        assert(fmod(fmod(n[0] - c[0]) - 1) == fmod(n[0] - c[0] - 1));
    }
    // C1: the pc update.
    let c1 = pc_constraint(current, next, is_write);
    // C2-C5: registers either take the written value or stay the same.
    let r0 = reg_constraint(current, next, 0, is_write, write_val);
    let r1 = reg_constraint(current, next, 1, is_write, write_val);
    let r2 = reg_constraint(current, next, 2, is_write, write_val);
    let r3 = reg_constraint(current, next, 3, is_write, write_val);
    // C6, C7: the read values equal the registers named by rs1 and rs2.
    let rs1_expected = read_expected(current, current[4]);
    let c6 = current[11] - rs1_expected;
    let rs2_expected = read_expected(current, current[5]);
    let c7 = current[12] - rs2_expected;
    proof {
        assert(c[4] == current[4]@);
        assert(c[5] == current[5]@);
        assert(c[11] == current[11]@);
        assert(c[12] == current[12]@);
    }
    let r = [c0, c1, r0, r1, r2, r3, c6, c7];
    proof {
        let cv = constraint_values(c, n);
        assert(r@[0]@ == cv[0]);
        assert(r@[1]@ == cv[1]);
        assert(r@[2]@ == cv[2]);
        assert(r@[3]@ == cv[3]);
        assert(r@[4]@ == cv[4]);
        assert(r@[5]@ == cv[5]);
        assert(r@[6]@ == cv[6]);
        assert(r@[7]@ == cv[7]);
    }
    r
}

/// The random linear combination sum over i < k of alpha^i * cs[i], reduced modulo p.
pub open spec fn compose_spec(cs: Seq<int>, alpha: int, k: int) -> int
    decreases k,
{
    if k <= 0 {
        0
    } else {
        fmod(compose_spec(cs, alpha, k - 1) + fpow(alpha, (k - 1) as nat) * cs[k - 1])
    }
}

/// The composition of the constraints of a transition: sum of alpha^i * C_i.
pub open spec fn composition_spec(cur: Seq<int>, next: Seq<int>, alpha: int) -> int {
    compose_spec(constraint_values(cur, next), alpha, NUM_CONSTRAINTS as int)
}

/// Combine the transition constraints with powers of alpha: sum of alpha^i * C_i.
pub fn evaluate_composition(current: &[Fp; NUM_COLUMNS], next: &[Fp; NUM_COLUMNS], alpha: Fp) -> (r: Fp)
    ensures
        r@ == composition_spec(cols(*current), cols(*next), alpha@),
{
    broadcast use crate::field::group_fmod;

    let constraints = evaluate_transition_constraints(current, next);
    let ghost cv = constraint_values(cols(*current), cols(*next));
    let mut result = Fp::zero();
    let mut alpha_power = Fp::one();
    let mut i: usize = 0;
    proof {
        lemma_fmod_small(0);
        lemma_fmod_small(1);
        vstd::arithmetic::power::lemma_pow0(alpha@);
    }
    while i < NUM_CONSTRAINTS
        invariant
            i <= NUM_CONSTRAINTS,
            cv == constraint_values(cols(*current), cols(*next)),
            forall|j: int| 0 <= j < NUM_CONSTRAINTS ==> (#[trigger] constraints@[j])@ == cv[j],
            result@ == compose_spec(cv, alpha@, i as int),
            alpha_power@ == fpow(alpha@, i as nat),
        decreases NUM_CONSTRAINTS - i,
    {
        let c = constraints[i];
        let ghost r0 = result@;
        let ghost ap = alpha_power@;
        result = result + alpha_power * c;
        alpha_power = alpha_power * alpha;
        proof {
            broadcast use crate::field::group_fmod;

            assert(c@ == cv[i as int]);
            assert(fmod(r0 + fmod(ap * c@)) == fmod(r0 + ap * c@));
            vstd::arithmetic::power::lemma_pow_adds(alpha@, i as nat, 1);
            vstd::arithmetic::power::lemma_pow1(alpha@);
            let x = pow(alpha@, i as nat);
            assert(fmod(fmod(x) * alpha@) == fmod(x * alpha@));
        }
        i += 1;
    }
    result
}

/// Every constraint of the transition from row i to row i+1 is zero.
pub open spec fn transition_ok(rows: Seq<Seq<int>>, i: int) -> bool {
    forall|j: int| 0 <= j < NUM_CONSTRAINTS ==> #[trigger] constraint_values(rows[i], rows[i + 1])[j] == 0
}

/// Check every transition of a trace directly. Returns the first failing
/// (row, constraint) pair, scanning rows in order and constraints in order.
pub fn verify_trace_constraints(rows: &[TraceRow]) -> (r: Result<(), (usize, usize)>)
    requires
        rows.len() >= 1,
    ensures
        r is Ok <==> forall|i: int| 0 <= i < rows.len() - 1 ==> #[trigger] transition_ok(rows_view(rows@), i),
        r matches Err((i, j)) ==> {
            &&& i < rows.len() - 1
            &&& j < NUM_CONSTRAINTS
            &&& constraint_values(rows_view(rows@)[i as int], rows_view(rows@)[i + 1])[j as int] != 0
            &&& forall|i2: int| 0 <= i2 < i ==> #[trigger] transition_ok(rows_view(rows@), i2)
            &&& forall|j2: int| 0 <= j2 < j ==> #[trigger] constraint_values(rows_view(rows@)[i as int], rows_view(rows@)[i + 1])[j2] == 0
        },
{
    let ghost rv = rows_view(rows@);
    let mut i: usize = 0;
    while i < rows.len() - 1
        invariant
            rows.len() >= 1,
            i <= rows.len() - 1,
            rv == rows_view(rows@),
            forall|i2: int| 0 <= i2 < i ==> #[trigger] transition_ok(rv, i2),
        decreases rows.len() - 1 - i,
    {
        let current = rows[i].to_array();
        let next = rows[i + 1].to_array();
        proof {
            assert(cols(current) =~= rv[i as int]);
            assert(cols(next) =~= rv[i + 1]);
        }
        let constraints = evaluate_transition_constraints(&current, &next);
        let mut j: usize = 0;
        while j < NUM_CONSTRAINTS
            invariant
                j <= NUM_CONSTRAINTS,
                i < rows.len() - 1,
                rv == rows_view(rows@),
                forall|j2: int| 0 <= j2 < NUM_CONSTRAINTS ==> (#[trigger] constraints@[j2])@ == constraint_values(rv[i as int], rv[i + 1])[j2],
                forall|j2: int| 0 <= j2 < j ==> #[trigger] constraint_values(rv[i as int], rv[i + 1])[j2] == 0,
                forall|i2: int| 0 <= i2 < i ==> #[trigger] transition_ok(rv, i2),
            decreases NUM_CONSTRAINTS - j,
        {
            if constraints[j] != Fp::zero() {
                proof {
                    assert(constraint_values(rv[i as int], rv[i + 1])[j as int] != 0);
                    assert(!transition_ok(rv, i as int));
                }
                return Err((i, j));
            }
            j += 1;
        }
        proof {
            assert(transition_ok(rv, i as int));
        }
        i += 1;
    }
    Ok(())
}

} // verus!
